//! Maximal-munch scanning of text into raw tokens.
use vstd::prelude::*;

use crate::chars::{
    alphanumeric, ascii_alphabetic, ascii_digit, ascii_whitespace, chars_of, is_alpha, is_digit,
    is_ws, string_of, unicode_alnum,
};

verus! {

/// The rule that extends a token past its first character.
#[derive(Clone, Copy, Debug, PartialEq, Eq, Structural)]
pub enum RunKind {
    /// ASCII digits and `.`
    Number,
    /// alphanumeric characters and `_`
    Word,
    /// nothing: the token is one character
    Single,
}

pub open spec fn kind_of(first: char) -> RunKind {
    if is_digit(first) {
        RunKind::Number
    } else if is_alpha(first) {
        RunKind::Word
    } else {
        RunKind::Single
    }
}

pub open spec fn continues(kind: RunKind, c: char) -> bool {
    match kind {
        RunKind::Number => is_digit(c) || c == '.',
        RunKind::Word => unicode_alnum(c) || c == '_',
        RunKind::Single => false,
    }
}

/// The first position at or after `i` that holds no ASCII whitespace.
pub open spec fn skip_ws(s: Seq<char>, i: int) -> int
    decreases s.len() - i,
{
    if 0 <= i < s.len() && is_ws(s[i]) {
        skip_ws(s, i + 1)
    } else {
        i
    }
}

/// The end of the longest run from `i` on of characters that continue a `kind` token.
pub open spec fn run_end(s: Seq<char>, i: int, kind: RunKind) -> int
    decreases s.len() - i,
{
    if 0 <= i < s.len() && continues(kind, s[i]) {
        run_end(s, i + 1, kind)
    } else {
        i
    }
}

/// The end of the token that starts at `j`.
pub open spec fn token_end(s: Seq<char>, j: int) -> int {
    run_end(s, j + 1, kind_of(s[j]))
}

/// The tokens of `s` from position `i` on.
pub open spec fn lex_from(s: Seq<char>, i: int) -> Seq<Seq<char>>
    decreases s.len() - i,
    via lex_from_decreases
{
    let j = skip_ws(s, i);
    if i < 0 || j >= s.len() {
        seq![]
    } else {
        let e = token_end(s, j);
        seq![s.subrange(j, e)] + lex_from(s, e)
    }
}

/// The tokens of `s`.
pub open spec fn lex(s: Seq<char>) -> Seq<Seq<char>> {
    lex_from(s, 0)
}

pub proof fn lemma_skip_ws_bounds(s: Seq<char>, i: int)
    requires
        0 <= i <= s.len(),
    ensures
        i <= skip_ws(s, i) <= s.len(),
        skip_ws(s, i) < s.len() ==> !is_ws(s[skip_ws(s, i)]),
    decreases s.len() - i,
{
    if i < s.len() && is_ws(s[i]) {
        lemma_skip_ws_bounds(s, i + 1);
    }
}

pub proof fn lemma_run_end_bounds(s: Seq<char>, i: int, kind: RunKind)
    requires
        0 <= i <= s.len(),
    ensures
        i <= run_end(s, i, kind) <= s.len(),
    decreases s.len() - i,
{
    if i < s.len() && continues(kind, s[i]) {
        lemma_run_end_bounds(s, i + 1, kind);
    }
}

#[via_fn]
proof fn lex_from_decreases(s: Seq<char>, i: int) {
    if 0 <= i <= s.len() {
        lemma_skip_ws_bounds(s, i);
        let j = skip_ws(s, i);
        if j < s.len() {
            lemma_run_end_bounds(s, j + 1, kind_of(s[j]));
        }
    } else if i > s.len() {
        assert(skip_ws(s, i) == i);
    }
}

/// A scanner over one text; each call hands out the next token.
pub struct Lexer {
    content: Vec<char>,
    pos: usize,
}

impl Lexer {
    /// The whole text scanned.
    pub closed spec fn text(&self) -> Seq<char> {
        self.content@
    }

    /// The position up to which the text has been consumed.
    pub closed spec fn position(&self) -> int {
        self.pos as int
    }

    pub closed spec fn wf(&self) -> bool {
        self.pos <= self.content@.len()
    }

    /// The tokens not yet handed out.
    pub open spec fn rest(&self) -> Seq<Seq<char>> {
        lex_from(self.text(), self.position())
    }

    pub fn new(content: &str) -> (r: Lexer)
        ensures
            r.wf(),
            r.text() == content@,
            r.position() == 0,
            r.rest() == lex(content@),
    {
        Lexer { content: chars_of(content), pos: 0 }
    }

    fn skip_whitespaces(&mut self)
        requires
            old(self).wf(),
        ensures
            final(self).wf(),
            final(self).text() == old(self).text(),
            final(self).position() == skip_ws(old(self).text(), old(self).position()),
    {
        while self.pos < self.content.len() && ascii_whitespace(self.content[self.pos])
            invariant
                self.wf(),
                self.text() == old(self).text(),
                skip_ws(self.text(), self.position()) == skip_ws(
                    old(self).text(),
                    old(self).position(),
                ),
            decreases self.content@.len() - self.pos,
        {
            self.pos = self.pos + 1;
        }
    }

    /// Consumes the token that starts at the current position, whose first character
    /// is taken whatever it is and whose rest is the longest run that `kind` continues.
    fn chomp_while(&mut self, kind: RunKind) -> (r: String)
        requires
            old(self).wf(),
            old(self).position() < old(self).text().len(),
        ensures
            final(self).wf(),
            final(self).text() == old(self).text(),
            final(self).position() == run_end(old(self).text(), old(self).position() + 1, kind),
            r@ == old(self).text().subrange(old(self).position(), final(self).position()),
    {
        let n = self.content.len();
        let start = self.pos;
        let mut end: usize = start + 1;
        proof {
            lemma_run_end_bounds(self.text(), end as int, kind);
        }
        while end < self.content.len() && self.extends(kind, self.content[end])
            invariant
                self.wf(),
                self == old(self),
                start < end <= self.content@.len(),
                run_end(self.text(), end as int, kind) == run_end(
                    self.text(),
                    start + 1,
                    kind,
                ),
            decreases self.content@.len() - end,
        {
            end = end + 1;
        }
        let token = string_of(&self.content.as_slice()[start..end]);
        self.pos = end;
        token
    }

    fn extends(&self, kind: RunKind, c: char) -> (r: bool)
        ensures
            r == continues(kind, c),
    {
        match kind {
            RunKind::Number => ascii_digit(c) || c == '.',
            RunKind::Word => alphanumeric(c) || c == '_',
            RunKind::Single => false,
        }
    }

    /// The next token, or `None` once only whitespace is left.
    pub fn get_next_token(&mut self) -> (r: Option<String>)
        requires
            old(self).wf(),
        ensures
            final(self).wf(),
            final(self).text() == old(self).text(),
            match r {
                None => old(self).rest() == Seq::<Seq<char>>::empty() && final(self).rest()
                    == Seq::<Seq<char>>::empty(),
                Some(t) => old(self).rest() == seq![t@] + final(self).rest() && final(self).position()
                    > old(self).position() && final(self).position() == token_end(
                    old(self).text(),
                    skip_ws(old(self).text(), old(self).position()),
                ) && t@ == old(self).text().subrange(
                    skip_ws(old(self).text(), old(self).position()),
                    final(self).position(),
                ),
            },
    {
        proof {
            lemma_skip_ws_bounds(self.text(), self.position());
        }
        self.skip_whitespaces();
        if self.pos >= self.content.len() {
            return None;
        }
        let first = self.content[self.pos];
        let kind = if ascii_digit(first) {
            RunKind::Number
        } else if ascii_alphabetic(first) {
            RunKind::Word
        } else {
            RunKind::Single
        };
        let ghost j = self.position();
        assert(kind == kind_of(self.text()[j]));
        let t = self.chomp_while(kind);
        proof {
            lemma_run_end_bounds(self.text(), j + 1, kind);
            assert(self.position() == token_end(self.text(), j));
            assert(old(self).rest() == seq![self.text().subrange(j, token_end(self.text(), j))]
                + lex_from(self.text(), token_end(self.text(), j)));
        }
        Some(t)
    }

    /// All the tokens not yet handed out, in order.
    pub fn tokens(&mut self) -> (r: Vec<String>)
        requires
            old(self).wf(),
        ensures
            final(self).wf(),
            r@.map_values(|t: String| t@) == old(self).rest(),
            final(self).rest() == Seq::<Seq<char>>::empty(),
    {
        let mut r: Vec<String> = Vec::new();
        loop
            invariant
                self.wf(),
                self.text() == old(self).text(),
                r@.map_values(|t: String| t@) + self.rest() == old(self).rest(),
            decreases self.text().len() - self.position(),
        {
            let ghost before = self.position();
            match self.get_next_token() {
                None => {
                    proof {
                        assert(r@.map_values(|t: String| t@) + self.rest() =~= r@.map_values(
                            |t: String| t@,
                        ));
                    }
                    return r;
                },
                Some(t) => {
                    proof {
                        assert(r@.push(t).map_values(|t: String| t@) =~= r@.map_values(
                            |t: String| t@,
                        ).push(t@));
                    }
                    r.push(t);
                },
            }
        }
    }
}

/// The tokens of `s`, in order.
pub fn lex_text(s: &str) -> (r: Vec<String>)
    ensures
        r@.map_values(|t: String| t@) == lex(s@),
{
    let mut lexer = Lexer::new(s);
    lexer.tokens()
}

} // verus!
