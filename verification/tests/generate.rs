use seifmios::lexicon::Lexicon;
use seifmios::rng::LexRng;
use std::collections::HashSet;

fn new_lex() -> Lexicon {
    Lexicon::new(LexRng::from_seed(11))
}

#[test]
fn respond_on_empty_corpus_is_none() {
    let mut lex = new_lex();
    let s = lex.source("console".to_string());
    assert!(lex.respond(s).is_none());
}

#[test]
fn respond_on_nonempty_corpus_is_some_with_corpus_words() {
    let mut lex = new_lex();
    lex.cocategorize_magnitude = 32;
    let s = lex.source("console".to_string());
    let a = lex.author(s, "me".to_string());
    lex.tell(s, a, "the cat sat".to_string());
    lex.tell(s, a, "the dog ran".to_string());
    lex.tell(s, a, "a bird flew".to_string());
    let corpus: HashSet<String> = lex.words.iter().map(|w| w.name.clone()).collect();
    for _ in 0..20 {
        let (generated, original) = lex.respond(s).expect("nonempty corpus must answer");
        assert!(!generated.is_empty());
        for tok in generated.split(' ') {
            assert!(corpus.contains(tok), "generated unknown word {}", tok);
        }
        for tok in original.split(' ') {
            assert!(corpus.contains(tok), "drifted unknown word {}", tok);
        }
    }
}

#[test]
fn respond_with_drift_still_uses_corpus_words() {
    let mut lex = new_lex();
    lex.cocategorize_magnitude = 64;
    lex.cocategory_travel_distance = 2;
    let s = lex.source("console".to_string());
    let a = lex.author(s, "me".to_string());
    lex.tell(s, a, "i like cats".to_string());
    lex.tell(s, a, "i like dogs".to_string());
    let corpus: HashSet<String> = lex.words.iter().map(|w| w.name.clone()).collect();
    for _ in 0..10 {
        let (generated, original) = lex.respond(s).expect("nonempty corpus must answer");
        for tok in generated.split(' ') {
            assert!(corpus.contains(tok));
        }
        for tok in original.split(' ') {
            assert!(corpus.contains(tok));
        }
    }
}

#[test]
fn initiate_starts_a_fresh_conversation() {
    let mut lex = new_lex();
    lex.cocategorize_magnitude = 8;
    let s = lex.source("console".to_string());
    let a = lex.author(s, "me".to_string());
    lex.tell(s, a, "hello there".to_string());
    let convs = lex.conversations.len();
    let r = lex.initiate(s);
    assert!(r.is_some());
    assert_eq!(lex.conversations.len(), convs + 1);
    // the fresh conversation is active and empty
    let active = lex.sources[s].active_conversation.unwrap();
    assert_eq!(lex.conversations[active].messages.len(), 0);
}

#[test]
fn initiate_on_empty_corpus_is_none() {
    let mut lex = new_lex();
    let s = lex.source("console".to_string());
    assert!(lex.initiate(s).is_none());
}

#[test]
fn message_rendering_round_trip() {
    let mut lex = new_lex();
    lex.cocategorize_magnitude = 0;
    let s = lex.source("console".to_string());
    let a = lex.author(s, "me".to_string());
    lex.tell(s, a, "one two three".to_string());
    lex.tell(s, a, "".to_string());
    assert_eq!(lex.string(0), "one two three");
    assert_eq!(lex.string(1), "");
}

#[test]
fn zero_travel_distance_renders_identically() {
    let mut lex = new_lex();
    lex.cocategorize_magnitude = 32;
    lex.cocategory_travel_distance = 0;
    let s = lex.source("console".to_string());
    let a = lex.author(s, "me".to_string());
    lex.tell(s, a, "i like cats".to_string());
    lex.tell(s, a, "i like dogs".to_string());
    for _ in 0..10 {
        let (original, response) = lex.respond(s).expect("nonempty corpus must answer");
        assert_eq!(original, response);
    }
}
