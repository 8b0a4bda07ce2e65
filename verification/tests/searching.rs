use local_rag::index::WordIndex;
use local_rag::model::DocumentChunk;
use local_rag::ranking::rank_chunks;
use local_rag::search::{count_occurrences, score_terms, word_bonus, ScoreTerm};
use local_rag::store::{RagSystem, SourceText};

fn chars(s: &str) -> Vec<char> {
    s.chars().collect()
}

fn file(title: &str, content: &str) -> SourceText {
    SourceText {
        title: title.to_string(),
        content: content.to_string(),
        source: format!("data/{}.txt", title),
    }
}

fn built(contents: &[&str]) -> RagSystem {
    let mut system = RagSystem::new("agentic", "data");
    let files = contents.iter().enumerate().map(|(i, c)| file(&format!("f{}", i), c)).collect();
    system.build_local_model(files);
    system
}

fn score(terms: &[ScoreTerm], chunk: usize) -> f32 {
    let mut total: f32 = 0.0;
    for t in terms.iter().filter(|t| t.chunk == chunk) {
        let idf = ((t.total_chunks as f32) / (t.document_frequency as f32)).ln();
        let tf = (t.term_frequency as f32) / (t.word_count as f32);
        total += tf * idf.abs() * (t.bonus as f32);
    }
    total
}

fn key(score: f32) -> u64 {
    if score > 0.0 {
        score.to_bits() as u64
    } else {
        0
    }
}

fn search(system: &RagSystem, query: &str, top_k: usize) -> Vec<(f32, usize)> {
    let terms = system.score_terms(query);
    let scores: Vec<f32> = (0..system.chunks().len()).map(|p| score(&terms, p)).collect();
    let keys: Vec<u64> = scores.iter().map(|s| key(*s)).collect();
    let ranked = rank_chunks(&keys, top_k);
    let found = system.search_local(&keys, top_k);
    assert_eq!(found.len(), ranked.len());
    for (p, (k, chunk)) in ranked.iter().zip(&found) {
        assert_eq!(*k, keys[*p]);
        assert!(std::ptr::eq(*chunk, &system.chunks()[*p]));
    }
    found.into_iter().zip(ranked).map(|((k, _), p)| (f32::from_bits(k as u32), p)).collect()
}

#[test]
fn occurrences_are_counted_without_overlap() {
    assert_eq!(count_occurrences(&chars("aaaa"), &chars("aa")), 2);
    assert_eq!(count_occurrences(&chars("aaaaa"), &chars("aa")), 2);
    assert_eq!(count_occurrences(&chars("abababa"), &chars("aba")), 2);
    assert_eq!(count_occurrences(&chars("the toro and the motor"), &chars("tor")), 2);
    assert_eq!(count_occurrences(&chars("abc"), &chars("abcd")), 0);
    assert_eq!(count_occurrences(&chars("abc"), &chars("abc")), 1);
    assert_eq!(count_occurrences(&chars(""), &chars("a")), 0);
    assert_eq!(count_occurrences(&chars("abc"), &chars("")), 0);
    assert_eq!(count_occurrences(&chars("xyz"), &chars("a")), 0);
}

#[test]
fn occurrences_agree_with_matches_on_samples() {
    for (hay, needle) in [
        ("banana", "ana"),
        ("banana", "a"),
        ("banana", "na"),
        ("mississippi", "ss"),
        ("mississippi", "issi"),
        ("ééé", "é"),
        ("toro manual toro", "toro"),
    ] {
        assert_eq!(count_occurrences(&chars(hay), &chars(needle)), hay.matches(needle).count());
    }
}

#[test]
fn priority_terms_count_double() {
    for w in ["toro", "recycler", "22", "manual"] {
        assert_eq!(word_bonus(w), 2, "{}", w);
    }
    for w in ["", "Toro", "manuals", "2", "222", "recycle", "mower"] {
        assert_eq!(word_bonus(w), 1, "{}", w);
    }
}

#[test]
fn terms_follow_the_posting_lists() {
    let system = built(&["Toro toro manual", "the motor manual", "garden shelf"]);
    let terms = system.score_terms("TORO, manual! toro");
    let expected = vec![
        ScoreTerm { chunk: 0, term_frequency: 2, word_count: 3, document_frequency: 2, total_chunks: 3, bonus: 2 },
        ScoreTerm { chunk: 0, term_frequency: 2, word_count: 3, document_frequency: 2, total_chunks: 3, bonus: 2 },
        ScoreTerm { chunk: 0, term_frequency: 1, word_count: 3, document_frequency: 2, total_chunks: 3, bonus: 2 },
        ScoreTerm { chunk: 1, term_frequency: 1, word_count: 3, document_frequency: 2, total_chunks: 3, bonus: 2 },
    ];
    assert_eq!(terms, expected);
}

#[test]
fn term_frequency_counts_substrings() {
    let system = built(&["the motor of the rotor", "tor", "garden"]);
    let terms = system.score_terms("tor");
    assert_eq!(
        terms,
        vec![ScoreTerm { chunk: 1, term_frequency: 1, word_count: 1, document_frequency: 1, total_chunks: 3, bonus: 1 }]
    );
    let terms = system.score_terms("the");
    assert_eq!(terms.len(), 2);
    assert_eq!(terms[0].term_frequency, 2);
    assert_eq!(terms[0].word_count, 5);
}

#[test]
fn a_word_that_the_index_lacks_gives_no_term() {
    let system = built(&["alpha beta", "gamma"]);
    assert!(system.score_terms("delta").is_empty());
    assert!(system.score_terms("").is_empty());
    assert!(system.score_terms("?!").is_empty());
}

#[test]
fn search_over_no_chunks_is_empty() {
    let system = RagSystem::new("agentic", "data");
    for query in ["", "toro", "toro manual"] {
        for top_k in [0, 1, 3, 100] {
            assert!(system.score_terms(query).is_empty());
            assert!(search(&system, query, top_k).is_empty());
        }
    }
    assert!(rank_chunks(&Vec::new(), 5).is_empty());
}

#[test]
fn postings_beyond_the_chunks_are_passed_over() {
    let chunks = vec![DocumentChunk::new("c".into(), "d".into(), "alpha beta".into(), 0)];
    let mut index = WordIndex::new();
    index.put("alpha".to_string(), vec![7, 0, 1]);
    let terms = score_terms(&chunks, &index, "alpha");
    assert_eq!(
        terms,
        vec![ScoreTerm { chunk: 0, term_frequency: 1, word_count: 2, document_frequency: 3, total_chunks: 1, bonus: 1 }]
    );
}

#[test]
fn search_gives_the_chunks_with_their_keys() {
    let system = built(&["alpha", "beta", "gamma"]);
    let got: Vec<(u64, &str)> = system
        .search_local(&vec![3, 0, 9], 5)
        .into_iter()
        .map(|(k, c)| (k, c.content.as_str()))
        .collect();
    assert_eq!(got, vec![(9, "gamma"), (3, "alpha")]);
    let got: Vec<(u64, &str)> = system
        .search_local(&vec![4, 4, 4], 2)
        .into_iter()
        .map(|(k, c)| (k, c.content.as_str()))
        .collect();
    assert_eq!(got, vec![(4, "alpha"), (4, "beta")]);
    assert!(system.search_local(&vec![4, 4, 4], 0).is_empty());
    assert!(system.search_local(&vec![0, 0, 0], 3).is_empty());
    assert!(system.search_local(&Vec::new(), 3).is_empty());
}

#[test]
fn keys_without_a_chunk_are_passed_over() {
    let system = built(&["alpha", "beta"]);
    let got: Vec<(u64, &str)> = system
        .search_local(&vec![1, 2, 99, 98], 5)
        .into_iter()
        .map(|(k, c)| (k, c.content.as_str()))
        .collect();
    assert_eq!(got, vec![(2, "beta"), (1, "alpha")]);
    let got: Vec<(u64, &str)> = system
        .search_local(&vec![7], 5)
        .into_iter()
        .map(|(k, c)| (k, c.content.as_str()))
        .collect();
    assert_eq!(got, vec![(7, "alpha")]);
    let empty = RagSystem::new("agentic", "data");
    assert!(empty.search_local(&vec![5, 6], 5).is_empty());
}

#[test]
fn ranking_goes_by_key_and_then_by_position() {
    assert_eq!(rank_chunks(&vec![5, 0, 7, 5, 9, 0], 10), vec![4, 2, 0, 3]);
    assert_eq!(rank_chunks(&vec![5, 0, 7, 5, 9, 0], 3), vec![4, 2, 0]);
    assert_eq!(rank_chunks(&vec![5, 0, 7, 5, 9, 0], 1), vec![4]);
    assert_eq!(rank_chunks(&vec![5, 0, 7, 5, 9, 0], 0), Vec::<usize>::new());
    assert_eq!(rank_chunks(&vec![0, 0, 0], 3), Vec::<usize>::new());
    assert_eq!(rank_chunks(&vec![1, 1, 1], 2), vec![0, 1]);
    assert_eq!(rank_chunks(&vec![u64::MAX, 1], 5), vec![0, 1]);
}

#[test]
fn results_are_sorted_and_at_most_top_k() {
    let system = built(&[
        "toro manual for the toro recycler",
        "garden tools and a manual",
        "the recycler 22 manual",
        "nothing of interest",
        "toro",
    ]);
    for top_k in 0..7 {
        let got = search(&system, "toro recycler manual 22", top_k);
        assert!(got.len() <= top_k);
        for pair in got.windows(2) {
            assert!(pair[0].0 >= pair[1].0);
        }
        for (s, _) in &got {
            assert!(*s > 0.0);
        }
    }
    assert_eq!(search(&system, "toro recycler manual 22", 10).len(), 4);
}

#[test]
fn a_chunk_with_both_boosted_terms_ranks_above_one_with_a_single_term() {
    let system = built(&["toro manual guide", "toro garden guide", "garden book shelf"]);
    let got = search(&system, "toro manual", 3);
    assert_eq!(got.len(), 2);
    assert_eq!(got[0].1, 0);
    assert_eq!(got[1].1, 1);
    assert!(got[0].0 > got[1].0);
    let toro = (1.0f32 / 3.0) * (3.0f32 / 2.0).ln() * 2.0;
    let manual = (1.0f32 / 3.0) * 3.0f32.ln() * 2.0;
    assert_eq!(got[1].0, toro);
    assert_eq!(got[0].0, toro + manual);
}

#[test]
fn a_word_in_every_chunk_weighs_nothing() {
    let system = built(&["alpha one", "alpha two"]);
    let terms = system.score_terms("alpha");
    assert_eq!(terms.len(), 2);
    assert_eq!(score(&terms, 0), 0.0);
    assert!(search(&system, "alpha", 5).is_empty());
}
