//! Turning text into counted terms.
use vstd::prelude::*;

use crate::case_insensitive_string::{folded, CaseInsensitiveString};
use crate::chars::chars_of;
use crate::counts::TermCounts;

mod lexer;
mod text;
mod xml;

pub use self::lexer::{lex, lex_from, lex_text, Lexer, RunKind};
pub use self::text::TextTokenizer;
pub use self::xml::{character_data, markup_events, text_pieces, EventKind, XmlTokenizer};

verus! {

/// How many of the tokens `ts` equal `k` up to ASCII case.
pub open spec fn occurrences(ts: Seq<Seq<char>>, k: Seq<char>) -> nat
    decreases ts.len(),
{
    if ts.len() == 0 {
        0
    } else {
        occurrences(ts.drop_last(), k) + if folded(ts.last()) == folded(k) {
            1nat
        } else {
            0nat
        }
    }
}

/// The tokens of each text in turn.
pub open spec fn lex_all(texts: Seq<Seq<char>>) -> Seq<Seq<char>>
    decreases texts.len(),
{
    if texts.len() == 0 {
        seq![]
    } else {
        lex_all(texts.drop_last()) + lex(texts.last())
    }
}

/// The counts of `before` with one more for each of the tokens `ts`.
pub open spec fn counted(before: &TermCounts, after: &TermCounts, ts: Seq<Seq<char>>) -> bool {
    &&& after.wf()
    &&& after.sum() == before.sum() + ts.len()
    &&& forall|k: Seq<char>| #[trigger]
        after.count_of(k) == before.count_of(k) + occurrences(ts, k)
}

/// Why a text could not be tokenized.
#[derive(Debug, Clone, PartialEq, Eq)]
pub enum TokenizeError {
    /// The markup is malformed; the parser's message.
    Parse(String),
    /// The counts would not fit in a machine word.
    TooLarge,
}

pub proof fn lemma_occurrences_push(ts: Seq<Seq<char>>, t: Seq<char>, k: Seq<char>)
    ensures
        occurrences(ts.push(t), k) == occurrences(ts, k) + if folded(t) == folded(k) {
            1nat
        } else {
            0nat
        },
{
    assert(ts.push(t).drop_last() =~= ts);
}

pub proof fn lemma_occurrences_concat(a: Seq<Seq<char>>, b: Seq<Seq<char>>, k: Seq<char>)
    ensures
        occurrences(a + b, k) == occurrences(a, k) + occurrences(b, k),
    decreases b.len(),
{
    if b.len() == 0 {
        assert(a + b =~= a);
    } else {
        assert((a + b).drop_last() =~= a + b.drop_last());
        lemma_occurrences_concat(a, b.drop_last(), k);
    }
}

pub proof fn lemma_lex_all_prefix(texts: Seq<Seq<char>>, j: int)
    requires
        0 <= j <= texts.len(),
    ensures
        lex_all(texts.subrange(0, j)).len() <= lex_all(texts).len(),
    decreases texts.len(),
{
    if j < texts.len() {
        assert(texts.drop_last().subrange(0, j) =~= texts.subrange(0, j));
        lemma_lex_all_prefix(texts.drop_last(), j);
    } else {
        assert(texts.subrange(0, j) =~= texts);
    }
}

/// Counting `a` and then `b` counts `a + b`.
pub proof fn lemma_counted_concat(
    x: &TermCounts,
    y: &TermCounts,
    z: &TermCounts,
    a: Seq<Seq<char>>,
    b: Seq<Seq<char>>,
)
    requires
        counted(x, y, a),
        counted(y, z, b),
    ensures
        counted(x, z, a + b),
{
    assert forall|k: Seq<char>| #[trigger]
        z.count_of(k) == x.count_of(k) + occurrences(a + b, k) by {
        lemma_occurrences_concat(a, b, k);
    }
}

/// Counts each of `tokens` into `tf`, when the new sum fits; `None`, with `tf`
/// unchanged, when it does not.
pub fn count_tokens(tokens: Vec<String>, tf: &mut TermCounts) -> (r: Option<usize>)
    requires
        old(tf).wf(),
    ensures
        final(tf).wf(),
        old(tf).sum() + tokens@.len() <= usize::MAX ==> r == Some(tokens@.len() as usize) && counted(
            old(tf),
            final(tf),
            tokens@.map_values(|t: String| t@),
        ),
        old(tf).sum() + tokens@.len() > usize::MAX ==> r is None && final(tf)@ == old(tf)@ && final(tf).sum() == old(tf).sum(),
{
    let n = tokens.len();
    if n > usize::MAX - tf.total() {
        return None;
    }
    let ghost ts = tokens@.map_values(|t: String| t@);
    let mut i: usize = 0;
    while i < n
        invariant
            n == tokens@.len(),
            ts == tokens@.map_values(|t: String| t@),
            i <= n,
            old(tf).sum() + n <= usize::MAX,
            counted(old(tf), tf, ts.subrange(0, i as int)),
        decreases n - i,
    {
        let term = CaseInsensitiveString::from_str(tokens[i].as_str());
        proof {
            assert(ts.subrange(0, i + 1) =~= ts.subrange(0, i as int).push(ts[i as int]));
            assert forall|k: Seq<char>| #[trigger]
                occurrences(ts.subrange(0, i + 1), k) == occurrences(ts.subrange(0, i as int), k)
                    + if folded(term@) == folded(k) {
                    1nat
                } else {
                    0nat
                } by {
                lemma_occurrences_push(ts.subrange(0, i as int), ts[i as int], k);
            }
        }
        tf.add(term);
        i = i + 1;
    }
    proof {
        assert(ts.subrange(0, n as int) =~= ts);
    }
    Some(n)
}

/// Counts the tokens of `s` into `tf`; `None`, with `tf` unchanged, when the new
/// sum would not fit in a machine word.
pub fn tokenize_string(s: &str, tf: &mut TermCounts) -> (r: Option<usize>)
    requires
        old(tf).wf(),
    ensures
        final(tf).wf(),
        old(tf).sum() + lex(s@).len() <= usize::MAX ==> r == Some(lex(s@).len() as usize)
            && counted(old(tf), final(tf), lex(s@)),
        old(tf).sum() + lex(s@).len() > usize::MAX ==> r is None && final(tf)@ == old(tf)@ && final(tf).sum() == old(tf).sum(),
{
    let tokens = lex_text(s);
    count_tokens(tokens, tf)
}

/// A way of finding the terms of a document's content.
pub trait Tokenizer {
    /// The tokens that the content holds, or `None` when it cannot be read this way.
    spec fn terms_of(&self, content: Seq<char>) -> Option<Seq<Seq<char>>>;

    /// Counts the terms of `content` into `tf` and returns how many there were.
    fn tokenize(&mut self, content: &str, tf: &mut TermCounts) -> (r: Result<
        usize,
        TokenizeError,
    >)
        requires
            old(tf).wf(),
        ensures
            final(tf).wf(),
            match old(self).terms_of(content@) {
                None => r matches Err(TokenizeError::Parse(_)),
                Some(ts) => if old(tf).sum() + ts.len() <= usize::MAX {
                    r == Ok::<usize, TokenizeError>(ts.len() as usize) && counted(old(tf), final(tf), ts)
                } else {
                    r == Err::<usize, TokenizeError>(TokenizeError::TooLarge)
                },
            },
    ;
}

/// How a file's content is read for terms.
#[derive(Debug, Clone, Copy, PartialEq, Eq, Structural)]
pub enum ContentKind {
    /// Lexed whole, by [`TextTokenizer`].
    Text,
    /// Character data only, by [`XmlTokenizer`].
    Markup,
}

/// The kind of content a file extension names: `xhtml` and `xml` are markup;
/// `text`, `txt` and `rs` are plain text; no other extension is indexed.
pub open spec fn kind_for(ext: Seq<char>) -> Option<ContentKind> {
    if ext == seq!['x', 'h', 't', 'm', 'l'] || ext == seq!['x', 'm', 'l'] {
        Some(ContentKind::Markup)
    } else if ext == seq!['t', 'e', 'x', 't'] || ext == seq!['t', 'x', 't'] || ext == seq!['r', 's'] {
        Some(ContentKind::Text)
    } else {
        None
    }
}

fn spelled(c: &Vec<char>, word: &[char]) -> (r: bool)
    ensures
        r == (c@ == word@),
{
    if c.len() != word.len() {
        return false;
    }
    let mut i: usize = 0;
    while i < c.len()
        invariant
            c@.len() == word@.len(),
            i <= c@.len(),
            forall|j: int| 0 <= j < i ==> c@[j] == word@[j],
        decreases c@.len() - i,
    {
        if c[i] != word[i] {
            return false;
        }
        i = i + 1;
    }
    proof {
        assert(c@ =~= word@);
    }
    true
}

/// The kind of content a file with extension `ext` holds, if it is indexed.
pub fn content_kind(ext: &str) -> (r: Option<ContentKind>)
    ensures
        r == kind_for(ext@),
{
    let c = chars_of(ext);
    let xhtml = ['x', 'h', 't', 'm', 'l'];
    let xml = ['x', 'm', 'l'];
    let text = ['t', 'e', 'x', 't'];
    let txt = ['t', 'x', 't'];
    let rs = ['r', 's'];
    proof {
        assert(xhtml@ =~= seq!['x', 'h', 't', 'm', 'l']);
        assert(xml@ =~= seq!['x', 'm', 'l']);
        assert(text@ =~= seq!['t', 'e', 'x', 't']);
        assert(txt@ =~= seq!['t', 'x', 't']);
        assert(rs@ =~= seq!['r', 's']);
    }
    if spelled(&c, xhtml.as_slice()) || spelled(&c, xml.as_slice()) {
        Some(ContentKind::Markup)
    } else if spelled(&c, text.as_slice()) || spelled(&c, txt.as_slice()) || spelled(&c, rs.as_slice()) {
        Some(ContentKind::Text)
    } else {
        None
    }
}

} // verus!
