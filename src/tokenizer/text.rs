//! Plain text: the whole content is lexed.
use vstd::prelude::*;

use crate::counts::TermCounts;
use crate::tokenizer::lexer::lex;
use crate::tokenizer::{tokenize_string, TokenizeError, Tokenizer};

verus! {

/// Tokenizes content as plain text.
#[derive(Debug, Default, Clone, Copy)]
pub struct TextTokenizer;

impl Tokenizer for TextTokenizer {
    open spec fn terms_of(&self, content: Seq<char>) -> Option<Seq<Seq<char>>> {
        Some(lex(content))
    }

    fn tokenize(&mut self, content: &str, tf: &mut TermCounts) -> (r: Result<usize, TokenizeError>) {
        match tokenize_string(content, tf) {
            Some(n) => Ok(n),
            None => Err(TokenizeError::TooLarge),
        }
    }
}

} // verus!
