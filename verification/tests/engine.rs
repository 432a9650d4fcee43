use seifmios::lexicon::Lexicon;
use seifmios::rng::LexRng;
use seifmios::types::{Mismatch, Ratio};

fn new_lex() -> Lexicon {
    Lexicon::new(LexRng::from_seed(7))
}

fn word_id(lex: &Lexicon, name: &str) -> usize {
    for (i, w) in lex.words.iter().enumerate() {
        if w.name == name {
            return i;
        }
    }
    panic!("word {} not found", name);
}

fn category_of(lex: &Lexicon, name: &str) -> usize {
    let w = word_id(lex, name);
    let ins = lex.words[w].instances[0];
    lex.instances[ins].category
}

#[test]
fn new_lexicon_defaults() {
    let lex = new_lex();
    assert_eq!(lex.words.len(), 0);
    assert_eq!(lex.messages.len(), 0);
    assert_eq!(lex.cocategorization_ratio.num, 2);
    assert_eq!(lex.cocategorization_ratio.den, 5);
    assert_eq!(lex.cocategorize_magnitude, 65536);
    assert_eq!(lex.cocategory_travel_distance, 0);
    assert_eq!(lex.forward_edge_distance, 1);
    assert_eq!(lex.backward_edge_distance, 1);
    assert_eq!(lex.forward_word_distance, 1);
    assert_eq!(lex.backward_word_distance, 1);
}

#[test]
fn source_is_idempotent() {
    let mut lex = new_lex();
    let s1 = lex.source("console".to_string());
    let s2 = lex.source("console".to_string());
    let s3 = lex.source("irc".to_string());
    assert_eq!(s1, s2);
    assert_ne!(s1, s3);
    assert_eq!(lex.sources.len(), 2);
    assert_eq!(lex.sources[s1].name, "console");
}

#[test]
fn author_is_idempotent_per_source() {
    let mut lex = new_lex();
    let s1 = lex.source("console".to_string());
    let s2 = lex.source("irc".to_string());
    let a1 = lex.author(s1, "me".to_string());
    let a2 = lex.author(s1, "me".to_string());
    let a3 = lex.author(s2, "me".to_string());
    assert_eq!(a1, a2);
    assert_ne!(a1, a3);
    assert_eq!(lex.authors[a1].source, s1);
    assert_eq!(lex.authors[a3].source, s2);
}

#[test]
fn tell_empty_text_yields_empty_message() {
    // the degenerate ingestion is accepted and produces zero instances
    let mut lex = new_lex();
    let s = lex.source("console".to_string());
    let a = lex.author(s, "me".to_string());
    lex.tell(s, a, "".to_string());
    assert_eq!(lex.messages.len(), 1);
    assert_eq!(lex.messages[0].instances.len(), 0);
    assert_eq!(lex.instances.len(), 0);
    assert_eq!(lex.sources[s].messages, 1);
}

#[test]
fn tell_splits_on_spaces_and_drops_empty_tokens() {
    let mut lex = new_lex();
    lex.cocategorize_magnitude = 4;
    let s = lex.source("console".to_string());
    let a = lex.author(s, "me".to_string());
    lex.tell(s, a, "  hello   there  ".to_string());
    assert_eq!(lex.messages.len(), 1);
    assert_eq!(lex.messages[0].instances.len(), 2);
    assert_eq!(lex.string(0), "hello there");
    assert_eq!(lex.words.len(), 2);
}

#[test]
fn tell_reuses_words() {
    let mut lex = new_lex();
    lex.cocategorize_magnitude = 4;
    let s = lex.source("console".to_string());
    let a = lex.author(s, "me".to_string());
    lex.tell(s, a, "a b a".to_string());
    assert_eq!(lex.words.len(), 2);
    let wa = word_id(&lex, "a");
    assert_eq!(lex.words[wa].instances.len(), 2);
}

#[test]
fn tell_appends_to_active_conversation() {
    let mut lex = new_lex();
    lex.cocategorize_magnitude = 0;
    let s = lex.source("console".to_string());
    let a = lex.author(s, "me".to_string());
    lex.tell(s, a, "one two".to_string());
    lex.tell(s, a, "three four".to_string());
    let conv = lex.messages[0].conversation;
    assert_eq!(lex.messages[1].conversation, conv);
    assert_eq!(lex.conversations[conv].messages, vec![0, 1]);
    lex.switch(s);
    lex.tell(s, a, "five six".to_string());
    assert_ne!(lex.messages[2].conversation, conv);
    assert_eq!(lex.sources[s].messages, 3);
}

#[test]
fn merge_with_itself_is_a_no_op() {
    let mut lex = new_lex();
    lex.cocategorize_magnitude = 0;
    let s = lex.source("console".to_string());
    let a = lex.author(s, "me".to_string());
    lex.tell(s, a, "only word".to_string());
    let c = category_of(&lex, "only");
    let n_cats = lex.categories.len();
    let r = lex.merge(c, c);
    assert_eq!(r, c);
    assert_eq!(lex.categories.len(), n_cats);
    assert_eq!(lex.categories[c].instances.len(), 1);
}

#[test]
fn merge_unions_membership_without_loss_or_duplicates() {
    let mut lex = new_lex();
    lex.cocategorize_magnitude = 0;
    let s = lex.source("console".to_string());
    let a = lex.author(s, "me".to_string());
    // distinct words everywhere so learning leaves the categories alone
    lex.tell(s, a, "pa qa".to_string());
    lex.tell(s, a, "pb qb".to_string());
    let ca = category_of(&lex, "pa");
    let cb = category_of(&lex, "pb");
    assert_ne!(ca, cb);
    let mut before: Vec<usize> = lex.categories[ca].instances.clone();
    before.extend(lex.categories[cb].instances.iter().cloned());
    let c = lex.merge(ca, cb);
    let after = &lex.categories[c].instances;
    assert_eq!(after.len(), before.len());
    for id in before.iter() {
        assert!(after.contains(id));
        assert_eq!(lex.instances[*id].category, c);
    }
    // no duplicates
    for i in 0..after.len() {
        for j in 0..i {
            assert_ne!(after[i], after[j]);
        }
    }
    // the inputs are retired
    assert_eq!(lex.categories[ca].instances.len(), 0);
    assert_eq!(lex.categories[cb].instances.len(), 0);
}

#[test]
fn partition_invariant_holds_after_learning() {
    let mut lex = new_lex();
    lex.cocategorize_magnitude = 16;
    let s = lex.source("console".to_string());
    let a = lex.author(s, "me".to_string());
    lex.tell(s, a, "i like cats".to_string());
    lex.tell(s, a, "i like dogs".to_string());
    lex.tell(s, a, "you hate rain".to_string());
    lex.think();
    // every instance appears in exactly one category's member list
    for id in 0..lex.instances.len() {
        let mut owners = 0;
        for c in 0..lex.categories.len() {
            if lex.categories[c].instances.contains(&id) {
                owners += 1;
                assert_eq!(lex.instances[id].category, c);
            }
        }
        assert_eq!(owners, 1);
    }
}

#[test]
fn symmetry_invariant_holds_after_cocategorize() {
    let mut lex = new_lex();
    lex.cocategorize_magnitude = 64;
    let s = lex.source("console".to_string());
    let a = lex.author(s, "me".to_string());
    lex.tell(s, a, "a b c".to_string());
    lex.tell(s, a, "a d c".to_string());
    lex.tell(s, a, "e f g".to_string());
    lex.think();
    lex.think();
    for x in 0..lex.categories.len() {
        for &y in lex.categories[x].precocategories.iter() {
            assert!(lex.categories[y].precocategories.contains(&x));
            assert_ne!(x, y);
        }
        for &y in lex.categories[x].postcocategories.iter() {
            assert!(lex.categories[y].postcocategories.contains(&x));
            assert_ne!(x, y);
        }
    }
}

#[test]
fn learning_converges_on_near_identical_messages() {
    // "a b c" and "a d c": the categories of b and d either merge or end up
    // linked as both pre- and postcocategories
    let mut lex = new_lex();
    lex.cocategorize_magnitude = 64;
    let s = lex.source("console".to_string());
    let a = lex.author(s, "me".to_string());
    lex.tell(s, a, "a b c".to_string());
    lex.tell(s, a, "a d c".to_string());
    let cb = category_of(&lex, "b");
    let cd = category_of(&lex, "d");
    let merged = cb == cd;
    let linked = lex.are_precocategories(cb, cd) && lex.are_postcocategories(cb, cd);
    assert!(merged || linked);
}

#[test]
fn cocategorize_ratio_threshold() {
    // total = 4 instance pairs, ratio 0.4 = 2/5, needed = round(4 * 0.4) + 1 = 3
    let mut lex = new_lex();
    lex.cocategorize_magnitude = 0;
    let s = lex.source("console".to_string());
    let a = lex.author(s, "me".to_string());
    // category A: the single instance of "a0", at position 0
    lex.tell(s, a, "a0 z1".to_string());
    // category B: four instances, two of them at position 0
    lex.tell(s, a, "b1 f1".to_string());
    lex.tell(s, a, "b2 f2".to_string());
    lex.tell(s, a, "g3 b3".to_string());
    lex.tell(s, a, "g4 b4".to_string());
    let ca = category_of(&lex, "a0");
    let c1 = category_of(&lex, "b1");
    let c2 = category_of(&lex, "b2");
    let c3 = category_of(&lex, "b3");
    let c4 = category_of(&lex, "b4");
    let m1 = lex.merge(c1, c2);
    let m2 = lex.merge(m1, c3);
    let cb = lex.merge(m2, c4);
    assert_eq!(lex.categories[cb].instances.len(), 4);
    let ratio = Ratio { num: 2, den: 5 };
    // exactly 2 of the 4 ordered pairs pre-coincide (both-at-boundary with a
    // zero edge budget): 2 < 3, so no link is made
    lex.cocategorize(ca, cb, ratio, 0, 0, 0, 0);
    assert!(!lex.are_precocategories(ca, cb));
    // raise the boundary coincidences to 3: now the pair becomes linked
    let mut lex2 = new_lex();
    lex2.cocategorize_magnitude = 0;
    let s2 = lex2.source("console".to_string());
    let a2 = lex2.author(s2, "me".to_string());
    lex2.tell(s2, a2, "a0 z1".to_string());
    lex2.tell(s2, a2, "b1 f1".to_string());
    lex2.tell(s2, a2, "b2 f2".to_string());
    lex2.tell(s2, a2, "b3 f3".to_string());
    lex2.tell(s2, a2, "g4 b4".to_string());
    let ca = category_of(&lex2, "a0");
    let c1 = category_of(&lex2, "b1");
    let c2 = category_of(&lex2, "b2");
    let c3 = category_of(&lex2, "b3");
    let c4 = category_of(&lex2, "b4");
    let m1 = lex2.merge(c1, c2);
    let m2 = lex2.merge(m1, c3);
    let cb = lex2.merge(m2, c4);
    lex2.cocategorize(ca, cb, ratio, 0, 0, 0, 0);
    assert!(lex2.are_precocategories(ca, cb));
    assert!(lex2.are_precocategories(cb, ca));
    // the following contexts do not coincide at all, so no post link
    assert!(!lex2.are_postcocategories(ca, cb));
}

#[test]
fn cocategorize_can_retract_a_link() {
    // the relation is re-evaluated on every call: growing a category without
    // new coincidences pushes the count below the threshold again
    let mut lex = new_lex();
    lex.cocategorize_magnitude = 0;
    let s = lex.source("console".to_string());
    let a = lex.author(s, "me".to_string());
    lex.tell(s, a, "a0 z1".to_string());
    lex.tell(s, a, "b1 f1".to_string());
    let ca = category_of(&lex, "a0");
    let cb = category_of(&lex, "b1");
    let ratio = Ratio { num: 2, den: 5 };
    // total = 1, needed = round(0.4) + 1 = 1; the one pair coincides
    lex.cocategorize(ca, cb, ratio, 0, 0, 0, 0);
    assert!(lex.are_precocategories(ca, cb));
    // grow B with three instances that do not pre-coincide with a0
    lex.tell(s, a, "g2 b2".to_string());
    lex.tell(s, a, "g3 b3".to_string());
    lex.tell(s, a, "g4 b4".to_string());
    let c2 = category_of(&lex, "b2");
    let c3 = category_of(&lex, "b3");
    let c4 = category_of(&lex, "b4");
    let m1 = lex.merge(cb, c2);
    let m2 = lex.merge(m1, c3);
    let cb = lex.merge(m2, c4);
    // total = 4, needed = 3, but only 1 pair coincides: the link is retracted
    lex.cocategorize(ca, cb, ratio, 0, 0, 0, 0);
    assert!(!lex.are_precocategories(ca, cb));
}

#[test]
fn coincidence_boundary() {
    // two last-token instances: a forward coincidence with a zero edge
    // budget, no coincidence with a positive one
    let mut lex = new_lex();
    lex.cocategorize_magnitude = 0;
    let s = lex.source("console".to_string());
    let a = lex.author(s, "me".to_string());
    lex.tell(s, a, "p q".to_string());
    lex.tell(s, a, "r s".to_string());
    let wq = {
        let w = lex.words.iter().position(|w| w.name == "q").unwrap();
        lex.words[w].instances[0]
    };
    let ws = {
        let w = lex.words.iter().position(|w| w.name == "s").unwrap();
        lex.words[w].instances[0]
    };
    assert!(lex.postcoincidence_neighbors(wq, ws, 0, 0));
    assert!(lex.postcoincidence_neighbors(wq, ws, 0, 1));
    assert!(!lex.postcoincidence_neighbors(wq, ws, 1, 0));
    assert!(!lex.postcoincidence_neighbors(wq, ws, 2, 1));
    // first-token instances behave the same way backwards
    let wp = {
        let w = lex.words.iter().position(|w| w.name == "p").unwrap();
        lex.words[w].instances[0]
    };
    let wr = {
        let w = lex.words.iter().position(|w| w.name == "r").unwrap();
        lex.words[w].instances[0]
    };
    assert!(lex.precoincidence_neighbors(wp, wr, 0, 0));
    assert!(!lex.precoincidence_neighbors(wp, wr, 1, 0));
}

#[test]
fn coincidence_tunnels_through_identical_words() {
    // neighbors that are the same word recurse outward while the word
    // budget lasts; an exhausted budget accepts immediately
    let mut lex = new_lex();
    lex.cocategorize_magnitude = 0;
    let s = lex.source("console".to_string());
    let a = lex.author(s, "me".to_string());
    lex.tell(s, a, "u same x".to_string());
    lex.tell(s, a, "v same y".to_string());
    let x = {
        let w = lex.words.iter().position(|w| w.name == "x").unwrap();
        lex.words[w].instances[0]
    };
    let y = {
        let w = lex.words.iter().position(|w| w.name == "y").unwrap();
        lex.words[w].instances[0]
    };
    // preceding words are both "same": an exhausted word budget accepts
    assert!(lex.precoincidence_neighbors(x, y, 0, 0));
    // with budget one the test recurses to "u" versus "v", which differ
    assert!(!lex.precoincidence_neighbors(x, y, 0, 1));
}

#[test]
fn mismatch_classification() {
    let mut lex = new_lex();
    lex.cocategorize_magnitude = 0;
    let s = lex.source("console".to_string());
    let a = lex.author(s, "me".to_string());
    lex.tell(s, a, "a b c".to_string());  // message 0
    lex.tell(s, a, "p q".to_string());  // message 1: different length
    lex.tell(s, a, "x y z".to_string());  // message 2: three mismatches
    // same message: incomparable
    assert!(matches!(lex.category_and_word_mismatch(0, 0), Mismatch::Nothing));
    // different lengths: incomparable
    assert!(matches!(lex.category_and_word_mismatch(0, 1), Mismatch::Nothing));
    // all three positions differ
    assert!(matches!(lex.category_and_word_mismatch(0, 2), Mismatch::Multiple));
}

#[test]
fn think_on_empty_corpus_is_a_no_op() {
    let mut lex = new_lex();
    lex.think();
    assert_eq!(lex.messages.len(), 0);
    assert_eq!(lex.categories.len(), 0);
}

#[test]
fn rng_draws_stay_below_the_bound() {
    let mut rng = LexRng::from_seed(99);
    for n in 1..50usize {
        let r = rng.below(n);
        assert!(r < n);
    }
}

#[test]
fn invariants_survive_interleaved_operations() {
    let mut lex = new_lex();
    lex.cocategorize_magnitude = 32;
    let s1 = lex.source("console".to_string());
    let s2 = lex.source("irc".to_string());
    let a1 = lex.author(s1, "me".to_string());
    let a2 = lex.author(s2, "bot".to_string());
    lex.tell(s1, a1, "the quick brown fox".to_string());
    lex.think();
    lex.tell(s2, a2, "the quick red fox".to_string());
    lex.switch(s1);
    lex.tell(s1, a1, "a lazy dog sleeps".to_string());
    let _ = lex.respond(s1);
    let _ = lex.initiate(s2);
    lex.think();
    lex.tell(s1, a1, "".to_string());
    let _ = lex.respond(s1);
    // partition: every instance is owned by exactly its own category
    for id in 0..lex.instances.len() {
        let c = lex.instances[id].category;
        assert!(lex.categories[c].instances.contains(&id));
        for d in 0..lex.categories.len() {
            if d != c {
                assert!(!lex.categories[d].instances.contains(&id));
            }
        }
    }
    // symmetry and no self-edges
    for x in 0..lex.categories.len() {
        for &y in lex.categories[x].precocategories.iter() {
            assert_ne!(x, y);
            assert!(lex.categories[y].precocategories.contains(&x));
        }
        for &y in lex.categories[x].postcocategories.iter() {
            assert_ne!(x, y);
            assert!(lex.categories[y].postcocategories.contains(&x));
        }
    }
    // messages and conversations stay mutually indexed
    for m in 0..lex.messages.len() {
        let conv = lex.messages[m].conversation;
        assert_eq!(lex.conversations[conv].messages[lex.messages[m].index], m);
    }
}

#[test]
fn think_on_empty_corpus_changes_nothing() {
    let mut lex = new_lex();
    lex.source("console".to_string());
    lex.think();
    assert_eq!(lex.messages.len(), 0);
    assert_eq!(lex.categories.len(), 0);
    assert_eq!(lex.sources.len(), 1);
}

#[test]
fn relearning_at_the_same_corpus_size_merges_nothing() {
    let mut lex = new_lex();
    lex.cocategorize_magnitude = 0;
    let s = lex.source("console".to_string());
    let a = lex.author(s, "me".to_string());
    lex.tell(s, a, "i like cats".to_string());
    lex.tell(s, a, "i like dogs".to_string());
    let cats_before = lex.categories.len();
    let labels: Vec<usize> = lex.instances.iter().map(|i| i.category).collect();
    // the second message was learned when it arrived: its tick is current
    lex.learn(1);
    assert_eq!(lex.categories.len(), cats_before);
    let labels_after: Vec<usize> = lex.instances.iter().map(|i| i.category).collect();
    assert_eq!(labels, labels_after);
    assert_eq!(lex.messages[1].last_checked_at, lex.messages.len());
}
