//! Markup: only character data is lexed.
use vstd::prelude::*;

use xml::reader::EventReader;
use xml::reader::XmlEvent::{
    CData, Characters, Comment, EndDocument, EndElement, ProcessingInstruction, StartDocument,
    StartElement, Whitespace,
};

use crate::counts::TermCounts;
use crate::tokenizer::lexer::{lex, lex_text};
use crate::tokenizer::{
    count_tokens, counted, lemma_counted_concat, lemma_lex_all_prefix, lex_all, TokenizeError,
    Tokenizer,
};

verus! {

/// The kind of a markup parser event.
#[derive(Clone, Copy, Debug, PartialEq, Eq, Structural)]
pub enum EventKind {
    StartDocument,
    EndDocument,
    ProcessingInstruction,
    StartElement,
    EndElement,
    CData,
    Comment,
    Characters,
    Whitespace,
}

/// The events of a markup document in order, each with its text (empty for the
/// kinds that carry none), or `None` when the document is malformed.
pub uninterp spec fn markup_events(doc: Seq<char>) -> Option<Seq<(EventKind, Seq<char>)>>;

pub open spec fn events_view(v: Seq<(EventKind, String)>) -> Seq<(EventKind, Seq<char>)> {
    v.map_values(|e: (EventKind, String)| (e.0, e.1@))
}

/// The texts of the character-data events, in order; every other event is ignored.
pub open spec fn text_pieces(evs: Seq<(EventKind, Seq<char>)>) -> Seq<Seq<char>>
    decreases evs.len(),
{
    if evs.len() == 0 {
        seq![]
    } else {
        text_pieces(evs.drop_last()) + if evs.last().0 == EventKind::Characters {
            seq![evs.last().1]
        } else {
            Seq::<Seq<char>>::empty()
        }
    }
}

/// Relies on xml-rs's `EventReader` with its default settings: each event in
/// order, or the message of the first error. The events depend on the document alone.
#[verifier::external_body]
fn parse_events(doc: &str) -> (r: Result<Vec<(EventKind, String)>, String>)
    ensures
        match r {
            Ok(v) => markup_events(doc@) == Some(events_view(v@)),
            Err(_) => markup_events(doc@) is None,
        },
{
    let mut out = Vec::new();
    for event in EventReader::new(doc.as_bytes()) {
        out.push(match event.map_err(|e| e.to_string())? {
            StartDocument { .. } => (EventKind::StartDocument, String::new()),
            EndDocument => (EventKind::EndDocument, String::new()),
            ProcessingInstruction { .. } => (EventKind::ProcessingInstruction, String::new()),
            StartElement { .. } => (EventKind::StartElement, String::new()),
            EndElement { .. } => (EventKind::EndElement, String::new()),
            CData(s) => (EventKind::CData, s),
            Comment(s) => (EventKind::Comment, s),
            Characters(s) => (EventKind::Characters, s),
            Whitespace(s) => (EventKind::Whitespace, s),
        });
    }
    Ok(out)
}

/// The texts of the character-data events, in order.
pub fn character_data(events: &Vec<(EventKind, String)>) -> (r: Vec<String>)
    ensures
        r@.map_values(|t: String| t@) == text_pieces(events_view(events@)),
{
    let ghost ev = events_view(events@);
    let mut r: Vec<String> = Vec::new();
    let mut i: usize = 0;
    while i < events.len()
        invariant
            ev == events_view(events@),
            i <= events@.len(),
            r@.map_values(|t: String| t@) == text_pieces(ev.subrange(0, i as int)),
        decreases events@.len() - i,
    {
        let ghost r0 = r@;
        proof {
            assert(ev.subrange(0, i + 1).drop_last() =~= ev.subrange(0, i as int));
            assert(ev.subrange(0, i + 1).last() == ev[i as int]);
        }
        if events[i].0 == EventKind::Characters {
            let t = events[i].1.clone();
            r.push(t);
            proof {
                assert(r@.map_values(|t: String| t@) =~= r0.map_values(|t: String| t@).push(
                    ev[i as int].1,
                ));
            }
        } else {
            proof {
                assert(text_pieces(ev.subrange(0, i + 1)) =~= text_pieces(ev.subrange(0, i as int)));
            }
        }
        i = i + 1;
    }
    proof {
        assert(ev.subrange(0, i as int) =~= ev);
    }
    r
}

/// Tokenizes content as markup, lexing the character data only.
#[derive(Debug, Default, Clone, Copy)]
pub struct XmlTokenizer;

impl Tokenizer for XmlTokenizer {
    open spec fn terms_of(&self, content: Seq<char>) -> Option<Seq<Seq<char>>> {
        match markup_events(content) {
            Some(evs) => Some(lex_all(text_pieces(evs))),
            None => None,
        }
    }

    fn tokenize(&mut self, content: &str, tf: &mut TermCounts) -> (r: Result<usize, TokenizeError>) {
        match parse_events(content) {
            Err(msg) => Err(TokenizeError::Parse(msg)),
            Ok(events) => {
                let texts = character_data(&events);
                count_pieces(&texts, tf)
            },
        }
    }
}

fn count_pieces(texts: &Vec<String>, tf: &mut TermCounts) -> (r: Result<usize, TokenizeError>)
    requires
        old(tf).wf(),
    ensures
        final(tf).wf(),
        ({
            let ts = lex_all(texts@.map_values(|t: String| t@));
            if old(tf).sum() + ts.len() <= usize::MAX {
                r == Ok::<usize, TokenizeError>(ts.len() as usize) && counted(old(tf), final(tf), ts)
            } else {
                r == Err::<usize, TokenizeError>(TokenizeError::TooLarge)
            }
        }),
{
    let ghost all = texts@.map_values(|t: String| t@);
    let mut count: usize = 0;
    let mut i: usize = 0;
    proof {
        assert(all.subrange(0, 0) =~= Seq::<Seq<char>>::empty());
        assert forall|k: Seq<char>| #[trigger]
            tf.count_of(k) == old(tf).count_of(k) + crate::tokenizer::occurrences(
                Seq::<Seq<char>>::empty(),
                k,
            ) by {}
    }
    while i < texts.len()
        invariant
            all == texts@.map_values(|t: String| t@),
            i <= texts@.len(),
            count == lex_all(all.subrange(0, i as int)).len(),
            counted(old(tf), tf, lex_all(all.subrange(0, i as int))),
        decreases texts@.len() - i,
    {
        let ghost mid = *tf;
        let tokens = lex_text(texts[i].as_str());
        let ghost prefix = all.subrange(0, i as int);
        proof {
            assert(all.subrange(0, i + 1) =~= prefix.push(all[i as int]));
            assert(all.subrange(0, i + 1).drop_last() =~= prefix);
            assert(tokens@.map_values(|t: String| t@) == lex(all[i as int]));
        }
        match count_tokens(tokens, tf) {
            None => {
                proof {
                    lemma_lex_all_prefix(all, i + 1);
                }
                return Err(TokenizeError::TooLarge);
            },
            Some(n) => {
                proof {
                    lemma_counted_concat(old(tf), &mid, tf, lex_all(prefix), lex(all[i as int]));
                }
                count = count + n;
            },
        }
        i = i + 1;
    }
    proof {
        assert(all.subrange(0, i as int) =~= all);
        tf.lemma_wf();
    }
    Ok(count)
}

} // verus!
