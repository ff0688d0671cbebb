use indexer::counts::TermCounts;
use indexer::index::{DocumentParts, IndexError, IndexParts, LoadError, SearchPlan};
use indexer::tokenizer::{
    character_data, content_kind, tokenize_string, ContentKind, EventKind, TextTokenizer, TokenizeError, Tokenizer,
    XmlTokenizer,
};
use indexer::{CaseInsensitiveString, Document, Index};

fn text_doc(s: &str) -> Document {
    Document::build(s, &mut TextTokenizer).unwrap()
}

fn corpus(texts: &[(&str, &str)]) -> Index {
    let mut index = Index::new();
    for (path, text) in texts {
        index.add_document(path.to_string(), text_doc(text)).unwrap();
    }
    index
}

fn idf(n: usize, df: usize) -> f64 {
    (n as f64 / (df as f64 + 1.0)).log2()
}

fn scores(plan: &SearchPlan) -> Vec<(String, f64)> {
    let mut out = Vec::new();
    for d in &plan.documents {
        let mut score = 0.0;
        for (j, occ) in d.occurrences.iter().enumerate() {
            if d.size > 0 {
                let tf = *occ as f64 / d.size as f64;
                score += tf * idf(plan.document_count, plan.document_frequencies[j]);
            }
        }
        if score != 0.0 {
            out.push((d.path.clone(), score));
        }
    }
    out.sort_by(|a, b| b.1.partial_cmp(&a.1).unwrap());
    out
}

#[test]
fn term_frequency_of_a_a_b() {
    let d = text_doc("a a b");
    assert_eq!(d.count(), 3);
    assert_eq!(d.term_frequency("a"), (2, 3));
    assert_eq!(d.term_frequency("b"), (1, 3));
    assert_eq!(d.term_frequency("c"), (0, 3));
    assert!(!d.contains("c"));
    assert!(d.contains("A"));
    assert_eq!(d.occurrences("A"), 2);
}

#[test]
fn term_frequency_of_empty_document() {
    let d = text_doc("  ");
    assert_eq!(d.count(), 0);
    assert_eq!(d.term_frequency("a"), (0, 1));
}

#[test]
fn idf_smoothing() {
    let index = corpus(&[("d1", "t x"), ("d2", "y"), ("d3", "z")]);
    let plan = index.search_plan("t u");
    assert_eq!(plan.document_count, 3);
    assert_eq!(plan.terms, vec!["t", "u"]);
    assert_eq!(plan.document_frequencies, vec![1, 0]);
    assert!((idf(3, 1) - 0.58496).abs() < 1e-5);
    assert!((idf(3, 0) - 1.58496).abs() < 1e-5);
    assert_eq!(index.document_frequency("T"), 1);
}

#[test]
fn end_to_end_ranking() {
    let index = corpus(&[
        ("Doc1", "apple banana apple"),
        ("Doc2", "banana orange banana"),
        ("Doc3", "orange grape orange"),
    ]);
    let plan = index.search_plan("apple");
    assert_eq!(plan.document_frequencies, vec![1]);
    assert_eq!(plan.documents.len(), 3);
    assert_eq!(plan.documents[0].occurrences, vec![2]);
    assert_eq!(plan.documents[0].size, 3);
    assert_eq!(plan.documents[1].occurrences, vec![0]);
    let ranked = scores(&plan);
    assert_eq!(ranked.len(), 1);
    assert_eq!(ranked[0].0, "Doc1");
    assert!((ranked[0].1 - 0.38997).abs() < 1e-4);
}

#[test]
fn zero_score_edge_case() {
    let index = corpus(&[("d1", "rare common"), ("d2", "common")]);
    let plan = index.search_plan("rare");
    assert_eq!(plan.document_frequencies, vec![1]);
    assert_eq!(idf(2, 1), 0.0);
    assert!(scores(&plan).is_empty());
}

#[test]
fn round_trip_through_parts() {
    let index = corpus(&[("a.txt", "Hello hello world"), ("b.txt", "World peace")]);
    let parts = index.to_parts();
    assert_eq!(parts.documents.len(), 2);
    assert_eq!(parts.documents[0].path, "a.txt");
    assert_eq!(
        parts.documents[0].term_frequency,
        vec![("Hello".to_string(), 2), ("world".to_string(), 1)]
    );
    assert_eq!(parts.documents[0].count, 3);
    assert_eq!(
        parts.term_frequency,
        vec![
            ("Hello".to_string(), 1),
            ("world".to_string(), 2),
            ("peace".to_string(), 1)
        ]
    );
    let loaded = Index::from_parts(&parts).unwrap();
    let again = loaded.to_parts();
    assert_eq!(again.documents.len(), 2);
    for i in 0..2 {
        assert_eq!(again.documents[i].path, parts.documents[i].path);
        assert_eq!(again.documents[i].term_frequency, parts.documents[i].term_frequency);
        assert_eq!(again.documents[i].count, parts.documents[i].count);
    }
    assert_eq!(again.term_frequency, parts.term_frequency);
}

#[test]
fn from_parts_rejects_bad_tables() {
    let doc = |path: &str, tf: Vec<(&str, usize)>, count: usize| DocumentParts {
        path: path.to_string(),
        term_frequency: tf.into_iter().map(|(k, c)| (k.to_string(), c)).collect(),
        count,
    };
    let load = |documents: Vec<DocumentParts>| {
        Index::from_parts(&IndexParts { documents, term_frequency: Vec::new() })
    };
    assert_eq!(load(vec![doc("p", vec![("a", 1), ("A", 1)], 2)]).err(), Some(LoadError::BadTable));
    assert_eq!(load(vec![doc("p", vec![("a", 0)], 0)]).err(), Some(LoadError::BadTable));
    assert_eq!(load(vec![doc("p", vec![("a", 2)], 3)]).err(), Some(LoadError::BadTable));
    assert_eq!(
        load(vec![doc("p", vec![("a", 1)], 1), doc("p", vec![("b", 1)], 1)]).err(),
        Some(LoadError::DuplicatePath)
    );
    let ok = load(vec![doc("p", vec![("a", 1)], 1), doc("q", vec![("A", 2)], 2)]).unwrap();
    assert_eq!(ok.document_frequency("a"), 2);
}

#[test]
fn duplicate_path_is_refused() {
    let mut index = corpus(&[("same", "x")]);
    assert_eq!(index.add_document("same".to_string(), text_doc("y")), Err(IndexError::DuplicatePath));
    assert_eq!(index.document_count(), 1);
    assert_eq!(index.document_frequency("y"), 0);
}

#[test]
fn xml_tokenizer_reads_character_data_only() {
    let d = Document::build(
        "<?xml version=\"1.0\"?><doc attr=\"skip\"><!-- gone --><p>Hello world</p><q>hello</q></doc>",
        &mut XmlTokenizer,
    )
    .unwrap();
    assert_eq!(d.count(), 3);
    assert_eq!(d.occurrences("hello"), 2);
    assert!(!d.contains("skip"));
    assert!(!d.contains("doc"));
    assert!(!d.contains("gone"));
}

#[test]
fn xml_tokenizer_reports_malformed_markup() {
    let r = Document::build("<a><b></a>", &mut XmlTokenizer);
    assert!(matches!(r, Err(TokenizeError::Parse(_))));
}

#[test]
fn tokenize_into_existing_counts() {
    let mut tf = TermCounts::new();
    assert_eq!(tokenize_string("x Y x", &mut tf), Some(3));
    assert_eq!(TextTokenizer.tokenize("y", &mut tf), Ok(1));
    assert_eq!(tf.total(), 4);
    assert_eq!(tf.len(), 2);
    assert_eq!(tf.get(&CaseInsensitiveString::from_str("y")), 2);
    assert_eq!(tf.get(&CaseInsensitiveString::from_str("X")), 2);
    assert_eq!(tf.to_entries(), vec![("x".to_string(), 2), ("Y".to_string(), 2)]);
}

#[test]
fn from_entries_checks_the_table() {
    let ok = TermCounts::from_entries(&vec![("a".to_string(), 2), ("b".to_string(), 1)]).unwrap();
    assert_eq!(ok.total(), 3);
    assert!(TermCounts::from_entries(&vec![("a".to_string(), 1), ("A".to_string(), 1)]).is_none());
    assert!(TermCounts::from_entries(&vec![("a".to_string(), 0)]).is_none());
}

#[test]
fn extensions_choose_the_tokenizer() {
    assert_eq!(content_kind("xml"), Some(ContentKind::Markup));
    assert_eq!(content_kind("xhtml"), Some(ContentKind::Markup));
    assert_eq!(content_kind("txt"), Some(ContentKind::Text));
    assert_eq!(content_kind("text"), Some(ContentKind::Text));
    assert_eq!(content_kind("rs"), Some(ContentKind::Text));
    assert_eq!(content_kind("md"), None);
    assert_eq!(content_kind("XML"), None);
}

#[test]
fn character_data_keeps_only_characters_events() {
    let events = vec![
        (EventKind::StartDocument, String::new()),
        (EventKind::StartElement, String::new()),
        (EventKind::Characters, "one".to_string()),
        (EventKind::Comment, "two".to_string()),
        (EventKind::Whitespace, " ".to_string()),
        (EventKind::CData, "three".to_string()),
        (EventKind::Characters, "four".to_string()),
        (EventKind::EndElement, String::new()),
        (EventKind::EndDocument, String::new()),
    ];
    assert_eq!(character_data(&events), vec!["one", "four"]);
    assert!(character_data(&Vec::new()).is_empty());
}
