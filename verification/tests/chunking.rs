use local_rag::chunker::{chunk_sentences, sentences_from_pieces, MAX_CHUNK_WORDS};
use local_rag::store::RagSystem;

fn system() -> RagSystem {
    RagSystem::new("agentic", "data")
}

fn words(word: &str, n: usize) -> String {
    vec![word; n].join(" ")
}

fn strings(items: &[&str]) -> Vec<String> {
    items.iter().map(|s| s.to_string()).collect()
}

#[test]
fn sentences_are_cut_at_punctuation_followed_by_whitespace() {
    let got = system().split_into_sentences("Hello world. How are you?  Fine!\nYes");
    assert_eq!(got, strings(&["Hello world", "How are you", "Fine", "Yes"]));
}

#[test]
fn punctuation_without_whitespace_is_no_boundary() {
    let got = system().split_into_sentences("Version 1.2.3 is out. See a.b for more.");
    assert_eq!(got, strings(&["Version 1.2.3 is out", "See a.b for more."]));
}

#[test]
fn a_run_of_punctuation_is_one_boundary() {
    let got = system().split_into_sentences("What?!  Really... yes");
    assert_eq!(got, strings(&["What", "Really", "yes"]));
}

#[test]
fn empty_pieces_are_dropped() {
    let got = system().split_into_sentences(". . . a. ");
    assert_eq!(got, strings(&["a"]));
}

#[test]
fn pieces_are_trimmed_and_empty_ones_left_out() {
    let got = sentences_from_pieces(&strings(&["  a b ", "", " \t\n", "c"]));
    assert_eq!(got, strings(&["a b", "c"]));
}

#[test]
fn short_sentences_share_a_chunk() {
    let got = system().chunk_text("Hello world. How are you? Fine!");
    assert_eq!(got, strings(&["Hello world How are you Fine!"]));
}

#[test]
fn text_without_boundary_is_one_chunk() {
    let got = system().chunk_text("  no punctuation here at all \n");
    assert_eq!(got, strings(&["no punctuation here at all"]));
}

#[test]
fn empty_text_gives_no_chunk() {
    assert!(system().chunk_text("").is_empty());
    assert!(system().chunk_text(" \n\t  ").is_empty());
}

#[test]
fn two_sentences_of_300_words_give_two_chunks() {
    let text = format!("{}. {}.", words("alpha", 300), words("beta", 300));
    let got = system().chunk_text(&text);
    assert_eq!(got.len(), 2);
    assert_eq!(got[0], words("alpha", 300));
    assert_eq!(got[1], format!("{}.", words("beta", 300)));
    assert_eq!(got[0].split_whitespace().count(), 300);
    assert_eq!(got[1].split_whitespace().count(), 300);
}

#[test]
fn a_chunk_may_hold_exactly_the_limit() {
    assert_eq!(MAX_CHUNK_WORDS, 500);
    let sentences = vec![words("a", 250), words("b", 250)];
    let got = chunk_sentences(&sentences);
    assert_eq!(got, vec![format!("{} {}", words("a", 250), words("b", 250))]);
}

#[test]
fn one_word_over_the_limit_starts_a_new_chunk() {
    let sentences = vec![words("a", 250), words("b", 251)];
    let got = chunk_sentences(&sentences);
    assert_eq!(got, vec![words("a", 250), words("b", 251)]);
}

#[test]
fn a_long_sentence_is_kept_whole() {
    let sentences = vec![words("a", 10), words("b", 600), words("c", 10)];
    let got = chunk_sentences(&sentences);
    assert_eq!(got, vec![words("a", 10), words("b", 600), words("c", 10)]);
}

#[test]
fn a_single_long_sentence_is_one_chunk() {
    let text = words("long", 1200);
    let got = system().chunk_text(&text);
    assert_eq!(got, vec![text]);
}

#[test]
fn chunks_keep_every_word_in_order() {
    let sentences: Vec<String> = (0..40).map(|i| words(&format!("w{}", i), 60 + i)).collect();
    let got = chunk_sentences(&sentences);
    let before: Vec<String> =
        sentences.iter().flat_map(|s| s.split_whitespace()).map(|w| w.to_string()).collect();
    let after: Vec<String> =
        got.iter().flat_map(|s| s.split_whitespace()).map(|w| w.to_string()).collect();
    assert_eq!(before, after);
    for chunk in &got {
        assert!(chunk.split_whitespace().count() <= MAX_CHUNK_WORDS);
    }
    assert!(got.len() > 1);
}

#[test]
fn no_sentences_give_no_chunk() {
    assert!(chunk_sentences(&Vec::new()).is_empty());
}
