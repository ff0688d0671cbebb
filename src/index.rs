//! Per-document term counts and the corpus index built from them.
use vstd::prelude::*;

use crate::case_insensitive_string::{folded, CaseInsensitiveString};
use crate::counts::{entries_view, has_key, positive, tally, total, unique_keys, TermCounts};
use crate::tokenizer::{occurrences, TokenizeError, Tokenizer};

verus! {

/// The term counts of one document and the number of tokens it held.
#[derive(Debug)]
pub struct Document {
    term_frequency: TermCounts,
    count: usize,
}

impl View for Document {
    type V = Seq<(Seq<char>, nat)>;

    closed spec fn view(&self) -> Seq<(Seq<char>, nat)> {
        self.term_frequency@
    }
}

/// A table that could be a document's: keys unique up to case, counts positive.
pub open spec fn table_ok(t: Seq<(Seq<char>, nat)>) -> bool {
    unique_keys(t) && positive(t) && total(t) <= usize::MAX
}

impl Document {
    pub closed spec fn wf(&self) -> bool {
        self.term_frequency.wf() && self.count == self.term_frequency.sum()
    }

    /// Number of tokens in the document.
    pub open spec fn size(&self) -> nat {
        total(self@)
    }

    /// How many times `k` occurs in the document, ignoring ASCII case.
    pub open spec fn occurrences_of(&self, k: Seq<char>) -> nat {
        tally(self@, k)
    }

    pub proof fn lemma_wf(&self)
        requires
            self.wf(),
        ensures
            table_ok(self@),
    {
        self.term_frequency.lemma_wf();
    }

    /// Tokenizes `content` with `tokenizer` into a new document.
    pub fn build<T: Tokenizer>(content: &str, tokenizer: &mut T) -> (r: Result<
        Document,
        TokenizeError,
    >)
        ensures
            match old(tokenizer).terms_of(content@) {
                None => r matches Err(TokenizeError::Parse(_)),
                Some(ts) => if ts.len() <= usize::MAX {
                    r is Ok && r->Ok_0.wf() && r->Ok_0.size() == ts.len() && forall|k: Seq<char>|
                        #[trigger] r->Ok_0.occurrences_of(k) == occurrences(ts, k)
                } else {
                    r == Err::<Document, TokenizeError>(TokenizeError::TooLarge)
                },
            },
    {
        let mut term_frequency = TermCounts::new();
        match tokenizer.tokenize(content, &mut term_frequency) {
            Ok(count) => {
                proof {
                    assert forall|k: Seq<char>| #[trigger] tally(term_frequency@, k) == tally(
                        Seq::<(Seq<char>, nat)>::empty(),
                        k,
                    ) + occurrences(old(tokenizer).terms_of(content@)->0, k) by {
                        assert(term_frequency.count_of(k) == tally(term_frequency@, k));
                    }
                }
                Ok(Document { term_frequency, count })
            },
            Err(e) => Err(e),
        }
    }

    /// Wraps a table of counts; the document's size is their sum.
    pub fn from_counts(term_frequency: TermCounts) -> (r: Document)
        requires
            term_frequency.wf(),
        ensures
            r.wf(),
            r@ == term_frequency@,
    {
        let count = term_frequency.total();
        Document { term_frequency, count }
    }

    pub fn counts(&self) -> (r: &TermCounts)
        requires
            self.wf(),
        ensures
            r.wf(),
            r@ == self@,
    {
        &self.term_frequency
    }

    /// Number of tokens in the document.
    pub fn count(&self) -> (r: usize)
        requires
            self.wf(),
        ensures
            r == self.size(),
    {
        self.count
    }

    /// How many times `term` occurs, ignoring ASCII case.
    pub fn occurrences(&self, term: &str) -> (r: usize)
        requires
            self.wf(),
        ensures
            r == self.occurrences_of(term@),
    {
        self.term_frequency.get(&CaseInsensitiveString::from_str(term))
    }

    /// The share of the document's tokens that are `term`, as a numerator and a
    /// nonzero denominator: the occurrences over the size, or zero over one for an
    /// empty document.
    pub fn term_frequency(&self, term: &str) -> (r: (usize, usize))
        requires
            self.wf(),
        ensures
            r.0 == self.occurrences_of(term@),
            self.size() > 0 ==> r.1 == self.size(),
            self.size() == 0 ==> r.0 == 0 && r.1 == 1,
    {
        let n = self.occurrences(term);
        if self.count == 0 {
            proof {
                self.term_frequency.lemma_wf();
                assert(n == 0) by {
                    lemma_tally_le_total(self@, term@);
                }
            }
            (0, 1)
        } else {
            (n, self.count)
        }
    }

    /// Whether `term` occurs in the document, ignoring ASCII case.
    pub fn contains(&self, term: &str) -> (r: bool)
        requires
            self.wf(),
        ensures
            r == (self.occurrences_of(term@) > 0),
    {
        self.term_frequency.contains(&CaseInsensitiveString::from_str(term))
    }
}

pub proof fn lemma_tally_le_total(s: Seq<(Seq<char>, nat)>, k: Seq<char>)
    ensures
        tally(s, k) <= total(s),
    decreases s.len(),
{
    if s.len() > 0 {
        lemma_tally_le_total(s.drop_last(), k);
    }
}

} // verus!
verus! {

/// A document as its path and its table of counts.
pub type DocView = (Seq<char>, Seq<(Seq<char>, nat)>);

/// How many of `docs` contain `k`, ignoring ASCII case.
pub open spec fn docs_with(docs: Seq<DocView>, k: Seq<char>) -> nat
    decreases docs.len(),
{
    if docs.len() == 0 {
        0
    } else {
        docs_with(docs.drop_last(), k) + if tally(docs.last().1, k) > 0 {
            1nat
        } else {
            0nat
        }
    }
}

pub open spec fn paths_unique(docs: Seq<DocView>) -> bool {
    forall|i: int, j: int|
        0 <= i < docs.len() && 0 <= j < docs.len() && i != j ==> (#[trigger] docs[i]).0 != (
        #[trigger] docs[j]).0
}

pub open spec fn has_path(docs: Seq<DocView>, p: Seq<char>) -> bool {
    exists|i: int| 0 <= i < docs.len() && (#[trigger] docs[i]).0 == p
}

/// Number of distinct terms of each document, summed over the documents.
pub open spec fn key_count(docs: Seq<DocView>) -> nat
    decreases docs.len(),
{
    if docs.len() == 0 {
        0
    } else {
        key_count(docs.drop_last()) + docs.last().1.len()
    }
}

/// What a consistent index holds: distinct paths, well-formed tables, and a
/// document frequency for each term that is the number of documents containing it,
/// summing to the number of distinct terms over all documents.
pub open spec fn index_ok(docs: Seq<DocView>, df: Seq<(Seq<char>, nat)>) -> bool {
    &&& paths_unique(docs)
    &&& total(df) == key_count(docs)
    &&& forall|i: int| 0 <= i < docs.len() ==> table_ok(#[trigger] docs[i].1)
    &&& table_ok(df)
    &&& forall|k: Seq<char>| #[trigger] tally(df, k) == docs_with(docs, k)
}

/// Why a document could not be added to an index.
#[derive(Debug, Clone, Copy, PartialEq, Eq, Structural)]
pub enum IndexError {
    /// A document with that path is already indexed.
    DuplicatePath,
    /// The document frequencies would not fit in a machine word.
    TooLarge,
}

/// The documents of a corpus by path, and for each term the number of documents
/// that contain it.
#[derive(Debug)]
pub struct Index {
    documents: Vec<(String, Document)>,
    term_frequency: TermCounts,
}

impl Index {
    /// The documents, in the order they were added.
    pub closed spec fn docs(&self) -> Seq<DocView> {
        self.documents@.map_values(|e: (String, Document)| (e.0@, e.1@))
    }

    /// The document-frequency table.
    pub closed spec fn df(&self) -> Seq<(Seq<char>, nat)> {
        self.term_frequency@
    }

    pub closed spec fn wf(&self) -> bool {
        &&& self.term_frequency.wf()
        &&& forall|i: int| 0 <= i < self.documents@.len() ==> (#[trigger] self.documents@[i]).1.wf()
        &&& index_ok(self.docs(), self.df())
    }

    pub proof fn lemma_wf(&self)
        requires
            self.wf(),
        ensures
            index_ok(self.docs(), self.df()),
    {
    }

    pub fn new() -> (r: Index)
        ensures
            r.wf(),
            r.docs() == Seq::<DocView>::empty(),
    {
        let r = Index { documents: Vec::new(), term_frequency: TermCounts::new() };
        proof {
            assert(r.docs() =~= Seq::<DocView>::empty());
            assert forall|k: Seq<char>| #[trigger] tally(r.df(), k) == docs_with(r.docs(), k) by {}
        }
        r
    }

    /// Number of documents.
    pub fn document_count(&self) -> (r: usize)
        ensures
            r == self.docs().len(),
    {
        self.documents.len()
    }

    /// The `i`-th document and its path.
    pub fn document(&self, i: usize) -> (r: (&String, &Document))
        requires
            self.wf(),
            i < self.docs().len(),
        ensures
            r.0@ == self.docs()[i as int].0,
            r.1@ == self.docs()[i as int].1,
            r.1.wf(),
    {
        (&self.documents[i].0, &self.documents[i].1)
    }

    /// The document-frequency table.
    pub fn document_frequencies(&self) -> (r: &TermCounts)
        requires
            self.wf(),
        ensures
            r.wf(),
            r@ == self.df(),
    {
        &self.term_frequency
    }

    /// Number of documents that contain `term`, ignoring ASCII case.
    pub fn document_frequency(&self, term: &str) -> (r: usize)
        requires
            self.wf(),
        ensures
            r == docs_with(self.docs(), term@),
    {
        self.term_frequency.get(&CaseInsensitiveString::from_str(term))
    }

    fn find_path(&self, path: &String) -> (r: bool)
        ensures
            r == has_path(self.docs(), path@),
    {
        let mut i: usize = 0;
        while i < self.documents.len()
            invariant
                i <= self.documents@.len(),
                forall|j: int| 0 <= j < i ==> (#[trigger] self.docs()[j]).0 != path@,
            decreases self.documents@.len() - i,
        {
            if self.documents[i].0 == *path {
                proof {
                    assert(self.docs()[i as int].0 == path@);
                }
                return true;
            }
            i = i + 1;
        }
        false
    }

    /// Adds `doc` under `path`, counting one more document for each of its terms.
    pub fn add_document(&mut self, path: String, doc: Document) -> (r: Result<(), IndexError>)
        requires
            old(self).wf(),
            doc.wf(),
        ensures
            final(self).wf(),
            has_path(old(self).docs(), path@) ==> r == Err::<(), IndexError>(IndexError::DuplicatePath),
            !has_path(old(self).docs(), path@) && total(old(self).df()) + doc@.len() > usize::MAX
                ==> r == Err::<(), IndexError>(IndexError::TooLarge),
            r is Ok ==> final(self).docs() == old(self).docs().push((path@, doc@)) && total(final(self).df()) == total(old(self).df()) + doc@.len(),
            r is Err ==> final(self).docs() == old(self).docs() && final(self).df() == old(self).df(),
            !has_path(old(self).docs(), path@) && total(old(self).df()) + doc@.len() <= usize::MAX
                ==> r is Ok,
    {
        if self.find_path(&path) {
            return Err(IndexError::DuplicatePath);
        }
        let table = doc.counts();
        let m = table.len();
        if m > usize::MAX - self.term_frequency.total() {
            return Err(IndexError::TooLarge);
        }
        let ghost t = doc@;
        let ghost df0 = self.term_frequency;
        proof {
            doc.lemma_wf();
            assert(t.subrange(0, 0) =~= Seq::<(Seq<char>, nat)>::empty());
        }
        let mut j: usize = 0;
        while j < m
            invariant
                m == t.len(),
                j <= m,
                table@ == t,
                table.wf(),
                table_ok(t),
                df0 == old(self).term_frequency,
                self.documents == old(self).documents,
                self.term_frequency.wf(),
                self.term_frequency.sum() == df0.sum() + j,
                df0.sum() + m <= usize::MAX,
                forall|k: Seq<char>| #[trigger]
                    self.term_frequency.count_of(k) == df0.count_of(k) + if has_key(
                        t.subrange(0, j as int),
                        k,
                    ) {
                        1nat
                    } else {
                        0nat
                    },
            decreases m - j,
        {
            let (key, _) = table.entry(j);
            let key = CaseInsensitiveString::from_chars(key.as_chars());
            let ghost before = self.term_frequency;
            proof {
                assert forall|k: Seq<char>| #[trigger] has_key(t.subrange(0, j + 1), k) == (has_key(
                    t.subrange(0, j as int),
                    k,
                ) || folded(key@)
                    == folded(k)) by {
                    let p = t.subrange(0, j as int);
                    let q = t.subrange(0, j + 1);
                    if has_key(p, k) {
                        let a = choose|a: int|
                            0 <= a < p.len() && folded(
                                #[trigger] p[a].0,
                            ) == folded(k);
                        assert(q[a] == p[a]);
                    }
                    if has_key(q, k) {
                        let a = choose|a: int|
                            0 <= a < q.len() && folded(
                                #[trigger] q[a].0,
                            ) == folded(k);
                        if a < j {
                            assert(q[a] == p[a]);
                        }
                    }
                    if folded(key@)
                        == folded(k) {
                        assert(q[j as int] == t[j as int]);
                        if has_key(p, k) {
                            let a = choose|a: int|
                                0 <= a < p.len() && folded(
                                    #[trigger] p[a].0,
                                ) == folded(k);
                            assert(p[a] == t[a]);
                            assert(false);
                        }
                    }
                }
            }
            self.term_frequency.add(key);
            j = j + 1;
        }
        proof {
            assert(t.subrange(0, m as int) =~= t);
        }
        let ghost docs0 = self.docs();
        self.documents.push((path, doc));
        proof {
            let d = self.docs();
            assert(d =~= docs0.push((path@, t)));
            assert(d.drop_last() =~= docs0);
            assert(docs0 == old(self).docs());
            assert(d.last() == (path@, t));
            assert forall|k: Seq<char>| #[trigger] tally(self.df(), k) == docs_with(d, k) by {
                crate::counts::lemma_has_key_tally(t, k);
                assert(self.term_frequency.count_of(k) == tally(self.df(), k));
                assert(df0.count_of(k) == tally(old(self).df(), k));
                assert(tally(old(self).df(), k) == docs_with(docs0, k));
            }
            assert forall|a: int, b: int|
                0 <= a < d.len() && 0 <= b < d.len() && a != b implies (#[trigger] d[a]).0 != (
            #[trigger] d[b]).0 by {
                if a < docs0.len() && b < docs0.len() {
                    assert(d[a] == docs0[a] && d[b] == docs0[b]);
                } else if a < docs0.len() {
                    assert(d[a] == docs0[a]);
                } else if b < docs0.len() {
                    assert(d[b] == docs0[b]);
                }
            }
            assert forall|i: int| 0 <= i < self.documents@.len() implies (
            #[trigger] self.documents@[i]).1.wf() by {
                if i < docs0.len() {
                    assert(self.documents@[i] == old(self).documents@[i]);
                }
            }
            assert forall|i: int| 0 <= i < d.len() implies table_ok(#[trigger] d[i].1) by {
                if i < docs0.len() {
                    assert(d[i] == docs0[i]);
                }
            }
            self.term_frequency.lemma_wf();
        }
        Ok(())
    }
}

} // verus!
verus! {

/// What scoring a query against one document needs: its path, its size and how
/// often each query term occurs in it.
#[derive(Debug)]
pub struct DocumentTerms {
    pub path: String,
    pub size: usize,
    pub occurrences: Vec<usize>,
}

/// Everything a TF-IDF ranking of a query reads from an index, as integers: the
/// query's terms, the number of documents, each term's document frequency, and
/// each document's occurrences of each term.
#[derive(Debug)]
pub struct SearchPlan {
    pub document_count: usize,
    pub terms: Vec<String>,
    pub document_frequencies: Vec<usize>,
    pub documents: Vec<DocumentTerms>,
}

impl Index {
    fn document_terms(&self, i: usize, terms: &Vec<String>) -> (r: DocumentTerms)
        requires
            self.wf(),
            i < self.docs().len(),
        ensures
            r.path@ == self.docs()[i as int].0,
            r.size == total(self.docs()[i as int].1),
            r.occurrences@.len() == terms@.len(),
            forall|j: int|
                0 <= j < terms@.len() ==> #[trigger] r.occurrences@[j] == tally(
                    self.docs()[i as int].1,
                    terms@[j]@,
                ),
    {
        let (path, doc) = self.document(i);
        let mut occurrences: Vec<usize> = Vec::new();
        let mut j: usize = 0;
        while j < terms.len()
            invariant
                doc.wf(),
                doc@ == self.docs()[i as int].1,
                j <= terms@.len(),
                occurrences@.len() == j,
                forall|a: int|
                    0 <= a < j ==> #[trigger] occurrences@[a] == tally(doc@, terms@[a]@),
            decreases terms@.len() - j,
        {
            occurrences.push(doc.occurrences(terms[j].as_str()));
            j = j + 1;
        }
        DocumentTerms { path: path.clone(), size: doc.count(), occurrences }
    }

    /// The integers that rank the documents against `query`: the query is lexed,
    /// each of its tokens kept as a term in order, repeats included.
    pub fn search_plan(&self, query: &str) -> (r: SearchPlan)
        requires
            self.wf(),
        ensures
            r.document_count == self.docs().len(),
            r.terms@.map_values(|t: String| t@) == crate::tokenizer::lex(query@),
            r.document_frequencies@.len() == r.terms@.len(),
            forall|j: int|
                0 <= j < r.terms@.len() ==> #[trigger] r.document_frequencies@[j] == docs_with(
                    self.docs(),
                    r.terms@[j]@,
                ),
            r.documents@.len() == self.docs().len(),
            forall|i: int|
                0 <= i < r.documents@.len() ==> {
                    &&& (#[trigger] r.documents@[i]).path@ == self.docs()[i].0
                    &&& r.documents@[i].size == total(self.docs()[i].1)
                    &&& r.documents@[i].occurrences@.len() == r.terms@.len()
                    &&& forall|j: int|
                        0 <= j < r.terms@.len() ==> #[trigger] r.documents@[i].occurrences@[j]
                            == tally(self.docs()[i].1, r.terms@[j]@)
                },
    {
        let terms = crate::tokenizer::lex_text(query);
        let mut document_frequencies: Vec<usize> = Vec::new();
        let mut j: usize = 0;
        while j < terms.len()
            invariant
                self.wf(),
                j <= terms@.len(),
                document_frequencies@.len() == j,
                forall|a: int|
                    0 <= a < j ==> #[trigger] document_frequencies@[a] == docs_with(
                        self.docs(),
                        terms@[a]@,
                    ),
            decreases terms@.len() - j,
        {
            document_frequencies.push(self.document_frequency(terms[j].as_str()));
            j = j + 1;
        }
        let mut documents: Vec<DocumentTerms> = Vec::new();
        let mut i: usize = 0;
        while i < self.documents.len()
            invariant
                self.wf(),
                i <= self.docs().len(),
                self.docs().len() == self.documents@.len(),
                documents@.len() == i,
                forall|a: int|
                    0 <= a < i ==> {
                        &&& (#[trigger] documents@[a]).path@ == self.docs()[a].0
                        &&& documents@[a].size == total(self.docs()[a].1)
                        &&& documents@[a].occurrences@.len() == terms@.len()
                        &&& forall|j: int|
                            0 <= j < terms@.len() ==> #[trigger] documents@[a].occurrences@[j]
                                == tally(self.docs()[a].1, terms@[j]@)
                    },
            decreases self.docs().len() - i,
        {
            documents.push(self.document_terms(i, &terms));
            i = i + 1;
        }
        SearchPlan {
            document_count: self.documents.len(),
            terms,
            document_frequencies,
            documents,
        }
    }
}

} // verus!
verus! {

/// A document as plain values: its path, its entries and its size.
#[derive(Debug, Clone)]
pub struct DocumentParts {
    pub path: String,
    pub term_frequency: Vec<(String, usize)>,
    pub count: usize,
}

/// An index as plain values: its documents and its document-frequency entries.
#[derive(Debug, Clone)]
pub struct IndexParts {
    pub documents: Vec<DocumentParts>,
    pub term_frequency: Vec<(String, usize)>,
}

pub type PartView = (Seq<char>, Seq<(Seq<char>, nat)>, nat);

pub open spec fn part_view(d: DocumentParts) -> PartView {
    (d.path@, entries_view(d.term_frequency@), d.count as nat)
}

pub open spec fn parts_view(v: Seq<DocumentParts>) -> Seq<PartView> {
    v.map_values(|d: DocumentParts| part_view(d))
}

/// The documents that the parts describe.
pub open spec fn as_docs(q: Seq<PartView>) -> Seq<DocView> {
    q.map_values(|e: PartView| (e.0, e.1))
}

/// The parts that describe the documents.
pub open spec fn saved(docs: Seq<DocView>) -> Seq<PartView> {
    docs.map_values(|d: DocView| (d.0, d.1, total(d.1)))
}

/// Parts from which an index can be rebuilt: distinct paths, well-formed tables
/// whose sums are the stated sizes, and document frequencies that fit.
pub open spec fn valid_parts(q: Seq<PartView>) -> bool {
    &&& paths_unique(as_docs(q))
    &&& forall|i: int| 0 <= i < q.len() ==> table_ok(#[trigger] q[i].1) && q[i].2 == total(q[i].1)
    &&& key_count(as_docs(q)) <= usize::MAX
}

/// Why parts could not be loaded as an index.
#[derive(Debug, Clone, Copy, PartialEq, Eq, Structural)]
pub enum LoadError {
    /// A table repeats a key, holds a zero count, or does not sum to the size.
    BadTable,
    /// Two documents share a path.
    DuplicatePath,
    /// The document frequencies would not fit in a machine word.
    TooLarge,
}

/// The error that loading reports for the `i`-th document, given those before it.
pub open spec fn part_error(q: Seq<PartView>, i: int) -> Option<LoadError> {
    if !(table_ok(q[i].1) && q[i].2 == total(q[i].1)) {
        Some(LoadError::BadTable)
    } else if has_path(as_docs(q.subrange(0, i)), q[i].0) {
        Some(LoadError::DuplicatePath)
    } else if key_count(as_docs(q.subrange(0, i + 1))) > usize::MAX {
        Some(LoadError::TooLarge)
    } else {
        None
    }
}

/// The error of the first document from `i` on that has one.
pub open spec fn load_error(q: Seq<PartView>, i: int) -> Option<LoadError>
    decreases q.len() - i,
{
    if i < 0 || i >= q.len() {
        None
    } else {
        match part_error(q, i) {
            Some(e) => Some(e),
            None => load_error(q, i + 1),
        }
    }
}

pub proof fn lemma_key_count_prefix(d: Seq<DocView>, j: int)
    requires
        0 <= j <= d.len(),
    ensures
        key_count(d.subrange(0, j)) <= key_count(d),
    decreases d.len(),
{
    if j < d.len() {
        assert(d.drop_last().subrange(0, j) =~= d.subrange(0, j));
        lemma_key_count_prefix(d.drop_last(), j);
    } else {
        assert(d.subrange(0, j) =~= d);
    }
}

/// Saving an index and loading what was saved gives back the same documents,
/// and any consistent index of those documents has the same document frequency
/// for every term.
pub proof fn lemma_round_trip(index: &Index, loaded: &Index)
    requires
        index.wf(),
        loaded.wf(),
        loaded.docs() == as_docs(saved(index.docs())),
    ensures
        valid_parts(saved(index.docs())),
        loaded.docs() == index.docs(),
        forall|k: Seq<char>| #[trigger] tally(loaded.df(), k) == tally(index.df(), k),
{
    let d = index.docs();
    let q = saved(d);
    assert(as_docs(q) =~= d);
    assert forall|i: int| 0 <= i < q.len() implies table_ok(#[trigger] q[i].1) && q[i].2 == total(
        q[i].1,
    ) by {
        assert(q[i].1 == d[i].1);
    }
    assert(total(index.df()) <= usize::MAX);
}

impl Index {
    /// The index as plain values.
    pub fn to_parts(&self) -> (r: IndexParts)
        requires
            self.wf(),
        ensures
            parts_view(r.documents@) == saved(self.docs()),
            entries_view(r.term_frequency@) == self.df(),
    {
        let mut documents: Vec<DocumentParts> = Vec::new();
        let mut i: usize = 0;
        while i < self.documents.len()
            invariant
                self.wf(),
                i <= self.documents@.len(),
                self.docs().len() == self.documents@.len(),
                parts_view(documents@) == saved(self.docs()).subrange(0, i as int),
            decreases self.documents@.len() - i,
        {
            let (path, doc) = self.document(i);
            let part = DocumentParts {
                path: path.clone(),
                term_frequency: doc.counts().to_entries(),
                count: doc.count(),
            };
            let ghost d0 = documents@;
            documents.push(part);
            proof {
                assert(documents@ == d0.push(part));
                assert(parts_view(documents@) =~= parts_view(d0).push(part_view(part)));
                assert(saved(self.docs()).subrange(0, i + 1) =~= saved(self.docs()).subrange(
                    0,
                    i as int,
                ).push(saved(self.docs())[i as int]));
            }
            i = i + 1;
        }
        proof {
            assert(saved(self.docs()).subrange(0, i as int) =~= saved(self.docs()));
        }
        IndexParts { documents, term_frequency: self.term_frequency.to_entries() }
    }

    /// Rebuilds an index from its documents; the document frequencies are derived
    /// from the documents' tables.
    pub fn from_parts(parts: &IndexParts) -> (r: Result<Index, LoadError>)
        ensures
            r is Ok <==> valid_parts(parts_view(parts.documents@)),
            r is Ok ==> r->Ok_0.wf() && r->Ok_0.docs() == as_docs(parts_view(parts.documents@)),
            match load_error(parts_view(parts.documents@), 0) {
                Some(e) => r == Err::<Index, LoadError>(e),
                None => r is Ok,
            },
    {
        let ghost q = parts_view(parts.documents@);
        let mut index = Index::new();
        let mut i: usize = 0;
        proof {
            assert(q.subrange(0, 0) =~= Seq::<PartView>::empty());
            assert(as_docs(q.subrange(0, 0)) =~= Seq::<DocView>::empty());
        }
        while i < parts.documents.len()
            invariant
                q == parts_view(parts.documents@),
                i <= q.len(),
                index.wf(),
                index.docs() == as_docs(q.subrange(0, i as int)),
                valid_parts(q.subrange(0, i as int)),
                total(index.df()) == key_count(index.docs()),
                load_error(q, 0) == load_error(q, i as int),
            decreases q.len() - i,
        {
            let part = &parts.documents[i];
            let ghost p = q.subrange(0, i as int);
            let ghost p1 = q.subrange(0, i + 1);
            proof {
                assert(p1 =~= p.push(q[i as int]));
                assert(as_docs(p1) =~= as_docs(p).push((q[i as int].0, q[i as int].1)));
                assert(as_docs(p1).drop_last() =~= as_docs(p));
                assert(q[i as int] == part_view(*part));
            }
            let table = match TermCounts::from_entries(&part.term_frequency) {
                Some(t) => t,
                None => {
                    proof {
                        assert(part_error(q, i as int) == Some(LoadError::BadTable));
                    }
                    return Err(LoadError::BadTable);
                },
            };
            if table.total() != part.count {
                proof {
                    assert(part_error(q, i as int) == Some(LoadError::BadTable));
                }
                return Err(LoadError::BadTable);
            }
            let doc = Document::from_counts(table);
            proof {
                index.lemma_wf();
            }
            match index.add_document(part.path.clone(), doc) {
                Ok(()) => {},
                Err(IndexError::DuplicatePath) => {
                    proof {
                        let j = choose|j: int|
                            0 <= j < index.docs().len() && (#[trigger] index.docs()[j]).0
                                == part.path@;
                        assert(as_docs(q)[j] == as_docs(p)[j]);
                        assert(as_docs(q)[i as int].0 == part.path@);
                        assert(!paths_unique(as_docs(q)));
                        doc.lemma_wf();
                        assert(part_error(q, i as int) == Some(LoadError::DuplicatePath));
                    }
                    return Err(LoadError::DuplicatePath);
                },
                Err(IndexError::TooLarge) => {
                    proof {
                        lemma_key_count_prefix(as_docs(q), i + 1);
                        assert(as_docs(q).subrange(0, i + 1) =~= as_docs(p1));
                        doc.lemma_wf();
                        assert(part_error(q, i as int) == Some(LoadError::TooLarge));
                    }
                    return Err(LoadError::TooLarge);
                },
            }
            proof {
                assert(index.docs() =~= as_docs(p1));
                assert forall|a: int, b: int|
                    0 <= a < as_docs(p1).len() && 0 <= b < as_docs(p1).len() && a != b implies (
                #[trigger] as_docs(p1)[a]).0 != (#[trigger] as_docs(p1)[b]).0 by {
                    assert(index.docs()[a] == as_docs(p1)[a]);
                    assert(index.docs()[b] == as_docs(p1)[b]);
                }
                assert forall|a: int| 0 <= a < p1.len() implies table_ok(#[trigger] p1[a].1)
                    && p1[a].2 == total(p1[a].1) by {
                    if a < i {
                        assert(p1[a] == p[a]);
                    } else {
                        doc.lemma_wf();
                    }
                }
                index.lemma_wf();
                doc.lemma_wf();
                assert(part_error(q, i as int) is None);
            }
            i = i + 1;
        }
        proof {
            assert(q.subrange(0, i as int) =~= q);
        }
        Ok(index)
    }
}

} // verus!
