use seifmios::lexicon::Lexicon;
use seifmios::rng::LexRng;

#[test]
fn snapshot_projection_is_lossless() {
    let mut lex = Lexicon::new(LexRng::from_seed(21));
    lex.cocategorize_magnitude = 16;
    let s = lex.source("console".to_string());
    let a = lex.author(s, "me".to_string());
    lex.tell(s, a, "i like cats".to_string());
    lex.tell(s, a, "i like dogs".to_string());
    let snap = lex.to_serial();
    assert_eq!(snap.cocategorization_ratio_num, 2);
    assert_eq!(snap.cocategorization_ratio_den, 5);
    assert_eq!(snap.words.len(), lex.words.len());
    for (sw, w) in snap.words.iter().zip(lex.words.iter()) {
        assert_eq!(sw.name, w.name);
        let ids: Vec<u64> = w.instances.iter().map(|&x| x as u64).collect();
        assert_eq!(sw.instances, ids);
    }
    assert_eq!(snap.sources.len(), lex.sources.len());
    assert_eq!(snap.sources[s].name, "console");
    assert_eq!(snap.sources[s].messages, 2);
    assert_eq!(snap.authors.len(), lex.authors.len());
    assert_eq!(snap.conversations.len(), lex.conversations.len());
    assert_eq!(snap.messages.len(), lex.messages.len());
    for (sm, m) in snap.messages.iter().zip(lex.messages.iter()) {
        assert_eq!(sm.author as usize, m.author);
        assert_eq!(sm.conversation as usize, m.conversation);
        assert_eq!(sm.index as usize, m.index);
        let ids: Vec<u64> = m.instances.iter().map(|&x| x as u64).collect();
        assert_eq!(sm.instances, ids);
    }
    assert_eq!(snap.instances.len(), lex.instances.len());
    for (si, i) in snap.instances.iter().zip(lex.instances.iter()) {
        assert_eq!(si.word as usize, i.word);
        assert_eq!(si.category as usize, i.category);
        assert_eq!(si.message as usize, i.message);
        assert_eq!(si.index as usize, i.index);
    }
    assert_eq!(snap.categories.len(), lex.categories.len());
    for (sc, c) in snap.categories.iter().zip(lex.categories.iter()) {
        assert_eq!(sc.instances.len(), c.instances.len());
        assert_eq!(sc.precocategories.len(), c.precocategories.len());
        assert_eq!(sc.postcocategories.len(), c.postcocategories.len());
    }
}
