use std::collections::HashMap;

use voicesurf::index::ScoreResult;
use voicesurf::index::make_index;

/// Evaluates a score result the way the host does: term frequency is the
/// count of additions of the reciprocal document length, weighed by
/// `ln((1 + N) / (1 + df))`, summed per document in query-token order.
fn eval_scores(r: &ScoreResult) -> HashMap<usize, f32> {
    let mut m: HashMap<usize, f32> = HashMap::new();
    for e in r.entries.iter() {
        let mut s: f32 = 0.0;
        for t in e.terms.iter() {
            let recip = (t.doc_len as f32).recip();
            let mut tf: f32 = 0.0;
            for _ in 0..t.count {
                tf += recip;
            }
            let idf = ((1 + r.n_docs) as f32 / (1 + t.df) as f32).ln();
            s += tf * idf;
        }
        m.insert(e.doc_id, s);
    }
    m
}

fn as_docs(texts: &[String]) -> Vec<(usize, Vec<u8>)> {
    texts
        .iter()
        .enumerate()
        .map(|(id, doc)| (id, doc.as_bytes().to_vec()))
        .collect()
}

#[test]
fn create_index_and_query() {
    let documents: Vec<String> = vec![
        String::from("this is sample").to_string(),
        String::from("this is another another example example example").to_string(),
    ];

    let tfidf_index = make_index(as_docs(&documents));

    let scores_this_is = eval_scores(&tfidf_index.score(&b"this is".to_vec()));
    assert_eq!(scores_this_is.get(&0).cloned().unwrap_or(0.0), 0.0);
    assert_eq!(scores_this_is.get(&1).cloned().unwrap_or(0.0), 0.0);

    let scores_example = eval_scores(&tfidf_index.score(&b"example".to_vec()));
    assert_eq!(scores_example.get(&0).cloned().unwrap_or(0.0), 0.0);
    assert_eq!(scores_example.get(&1).cloned().unwrap_or(0.0), 0.17377077);
}

#[test]
fn create_index_and_update() {
    let documents: Vec<String> = vec![
        String::from("this is sample").to_string(),
        String::from("this will get overwritten").to_string(),
    ];

    let mut tfidf_index = make_index(as_docs(&documents));

    tfidf_index.update(1, &b"will be overwrriten this is".to_vec());
    tfidf_index.update(1, &b"will be overwrriten this is example".to_vec());
    tfidf_index.update(
        1,
        &b"this is another another example example example".to_vec(),
    );

    let scores_this_is = eval_scores(&tfidf_index.score(&b"this is".to_vec()));
    assert_eq!(scores_this_is.get(&0).cloned().unwrap_or(0.0), 0.0);
    assert_eq!(scores_this_is.get(&1).cloned().unwrap_or(0.0), 0.0);

    let scores_example = eval_scores(&tfidf_index.score(&b"example".to_vec()));
    assert_eq!(scores_example.get(&0).cloned().unwrap_or(0.0), 0.0);
    assert_eq!(scores_example.get(&1).cloned().unwrap_or(0.0), 0.17377077);
}

#[test]
fn score_absent_tokens_is_empty() {
    let documents: Vec<String> = vec![
        String::from("this is sample"),
        String::from("this is another another example example example"),
    ];
    let tfidf_index = make_index(as_docs(&documents));
    let r = tfidf_index.score(&b"missing tokens only".to_vec());
    assert_eq!(r.entries.len(), 0);
    assert_eq!(r.n_docs, 2);
}

#[test]
fn remove_unindexed_is_noop() {
    let documents: Vec<String> = vec![
        String::from("this is sample"),
        String::from("this is another another example example example"),
    ];
    let mut tfidf_index = make_index(as_docs(&documents));
    let before = eval_scores(&tfidf_index.score(&b"example sample".to_vec()));
    tfidf_index.remove(17);
    assert_eq!(tfidf_index.number_of_documents, 2);
    let after = eval_scores(&tfidf_index.score(&b"example sample".to_vec()));
    assert_eq!(before, after);
}

#[test]
fn remove_drops_scores_and_count() {
    let documents: Vec<String> = vec![
        String::from("alpha beta"),
        String::from("beta gamma"),
    ];
    let mut tfidf_index = make_index(as_docs(&documents));
    tfidf_index.remove(0);
    assert_eq!(tfidf_index.number_of_documents, 1);
    let scores = tfidf_index.score(&b"alpha".to_vec());
    assert_eq!(scores.entries.len(), 0);
}

#[test]
fn vocabulary_is_exact_token_set() {
    let documents: Vec<String> = vec![
        String::from("Red-GREEN green"),
        String::from("blue red"),
    ];
    let mut tfidf_index = make_index(as_docs(&documents));
    let mut words: Vec<String> = tfidf_index
        .vocabulary()
        .into_iter()
        .map(|w| String::from_utf8(w).unwrap())
        .collect();
    words.sort();
    assert_eq!(words, vec!["blue", "green", "red"]);

    tfidf_index.remove(1);
    let mut words2: Vec<String> = tfidf_index
        .vocabulary()
        .into_iter()
        .map(|w| String::from_utf8(w).unwrap())
        .collect();
    words2.sort();
    assert_eq!(words2, vec!["green", "red"]);
}

#[test]
fn tokenizer_splits_on_non_alphabetic_and_lowercases() {
    let documents: Vec<String> = vec![String::from("ab3cd EF,gh")];
    let tfidf_index = make_index(as_docs(&documents));
    let mut words: Vec<String> = tfidf_index
        .vocabulary()
        .into_iter()
        .map(|w| String::from_utf8(w).unwrap())
        .collect();
    words.sort();
    assert_eq!(words, vec!["ab", "cd", "ef", "gh"]);

    // Queries split on whitespace only: "ab3cd" is one query token and
    // matches no document token.
    let r = tfidf_index.score(&b"ab3cd".to_vec());
    assert_eq!(r.entries.len(), 0);
    let r2 = tfidf_index.score(&b"ab".to_vec());
    assert_eq!(r2.entries.len(), 1);
}

#[test]
fn score_terms_are_exact() {
    let documents: Vec<String> = vec![
        String::from("this is sample"),
        String::from("this is another another example example example"),
    ];
    let tfidf_index = make_index(as_docs(&documents));
    let r = tfidf_index.score(&b"example".to_vec());
    assert_eq!(r.n_docs, 2);
    assert_eq!(r.entries.len(), 1);
    assert_eq!(r.entries[0].doc_id, 1);
    assert_eq!(r.entries[0].terms.len(), 1);
    assert_eq!(r.entries[0].terms[0].count, 3);
    assert_eq!(r.entries[0].terms[0].doc_len, 7);
    assert_eq!(r.entries[0].terms[0].df, 1);
}
