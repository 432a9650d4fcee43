use seifmios::command::{command_params, parse_command, parse_u64, Decision};
use seifmios::lexicon::Lexicon;
use seifmios::report::Relation;
use seifmios::rng::LexRng;
use seifmios::tokens::tokenize;

#[test]
fn tokenize_basic() {
    let toks = tokenize("a b c");
    assert_eq!(toks, vec!["a", "b", "c"]);
}

#[test]
fn tokenize_drops_empty_tokens() {
    assert_eq!(tokenize(""), Vec::<String>::new());
    assert_eq!(tokenize("   "), Vec::<String>::new());
    assert_eq!(tokenize("  x   y "), vec!["x", "y"]);
}

#[test]
fn command_params_splits_on_spaces() {
    assert_eq!(command_params("tell hello"), vec!["tell", "hello"]);
    assert_eq!(command_params("  get   cc_ratio "), vec!["get", "cc_ratio"]);
    assert_eq!(command_params(""), Vec::<String>::new());
}

#[test]
fn command_params_honors_backtick_quoting() {
    assert_eq!(command_params("tell `hello world`"), vec!["tell", "hello world"]);
    assert_eq!(command_params("a`b c`d"), vec!["a", "b c", "d"]);
    assert_eq!(command_params("``"), Vec::<String>::new());
    assert_eq!(command_params("` x y `"), vec![" x y "]);
}

#[test]
fn parse_u64_handles_digits_and_garbage() {
    assert_eq!(parse_u64("123"), Some(123));
    assert_eq!(parse_u64("0"), Some(0));
    assert_eq!(parse_u64(""), None);
    assert_eq!(parse_u64("12a"), None);
    assert_eq!(parse_u64("18446744073709551615"), Some(u64::MAX));
    assert_eq!(parse_u64("18446744073709551616"), None);
}

#[test]
fn parse_command_recognizes_verbs() {
    assert!(matches!(parse_command(&vec![]), Decision::Help));
    assert!(matches!(parse_command(&vec!["help".to_string()]), Decision::Help));
    assert!(matches!(parse_command(&vec!["quit".to_string()]), Decision::Quit));
    assert!(matches!(parse_command(&vec!["respond".to_string()]), Decision::Respond));
    match parse_command(&vec!["tell".to_string(), "hi there".to_string()]) {
        Decision::Tell(s) => assert_eq!(s, "hi there"),
        _ => panic!("expected tell"),
    }
    match parse_command(&vec!["import".to_string(), "lines".to_string(), "f.txt".to_string()]) {
        Decision::ImportLines(p) => assert_eq!(p, "f.txt"),
        _ => panic!("expected import"),
    }
    assert!(matches!(
        parse_command(&vec!["list".to_string(), "categories".to_string()]),
        Decision::ShowCategories
    ));
    assert!(matches!(
        parse_command(&vec!["connect".to_string(), "server".to_string()]),
        Decision::ConnectServer
    ));
    match parse_command(&vec!["connect".to_string(), "irc".to_string(), "cfg".to_string()]) {
        Decision::ConnectIrc(p) => assert_eq!(p, "cfg"),
        _ => panic!("expected irc"),
    }
}

#[test]
fn parse_command_tunables() {
    match parse_command(&vec![
        "set".to_string(),
        "cc_ratio".to_string(),
        "2".to_string(),
        "5".to_string(),
    ]) {
        Decision::SetCocategoryRatio(r) => {
            assert_eq!(r.num, 2);
            assert_eq!(r.den, 5);
        },
        _ => panic!("expected set cc_ratio"),
    }
    // a zero denominator is rejected
    assert!(matches!(
        parse_command(&vec![
            "set".to_string(),
            "cc_ratio".to_string(),
            "2".to_string(),
            "0".to_string(),
        ]),
        Decision::Help
    ));
    match parse_command(&vec!["set".to_string(), "cc_travel".to_string(), "3".to_string()]) {
        Decision::SetTravelDistance(v) => assert_eq!(v, 3),
        _ => panic!("expected set cc_travel"),
    }
    assert!(matches!(
        parse_command(&vec!["get".to_string(), "cc_ratio".to_string()]),
        Decision::GetCocategoryRatio
    ));
    assert!(matches!(
        parse_command(&vec!["get".to_string(), "cc_travel".to_string()]),
        Decision::GetTravelDistance
    ));
}

#[test]
fn parse_command_rejects_bad_arity() {
    assert!(matches!(parse_command(&vec!["tell".to_string()]), Decision::Help));
    assert!(matches!(
        parse_command(&vec!["respond".to_string(), "x".to_string()]),
        Decision::Help
    ));
    assert!(matches!(parse_command(&vec!["frobnicate".to_string()]), Decision::Help));
}

#[test]
fn find_relation_reports_unknown_words() {
    let mut lex = Lexicon::new(LexRng::from_seed(3));
    lex.cocategorize_magnitude = 0;
    let s = lex.source("console".to_string());
    let a = lex.author(s, "me".to_string());
    lex.tell(s, a, "known word".to_string());
    assert!(matches!(
        lex.find_relation(("ghost".to_string(), "spirit".to_string())),
        Relation::NeitherKnown
    ));
    assert!(matches!(
        lex.find_relation(("ghost".to_string(), "known".to_string())),
        Relation::FirstUnknown
    ));
    assert!(matches!(
        lex.find_relation(("known".to_string(), "ghost".to_string())),
        Relation::SecondUnknown
    ));
}

#[test]
fn find_relation_sees_a_shared_category() {
    let mut lex = Lexicon::new(LexRng::from_seed(3));
    lex.cocategorize_magnitude = 32;
    let s = lex.source("console".to_string());
    let a = lex.author(s, "me".to_string());
    // near-identical messages merge the categories of cats and dogs
    lex.tell(s, a, "i like cats".to_string());
    lex.tell(s, a, "i like dogs".to_string());
    match lex.find_relation(("cats".to_string(), "dogs".to_string())) {
        Relation::Found(rep) => {
            assert!(rep.shared_category || (rep.precocategory && rep.postcocategory));
        },
        _ => panic!("both words are known"),
    }
    // unrelated words in one corpus
    lex.tell(s, a, "zzz yyy".to_string());
    match lex.find_relation(("i".to_string(), "i".to_string())) {
        Relation::Found(rep) => assert!(rep.shared_category),
        _ => panic!("known word"),
    }
}

#[test]
fn show_categories_lists_grown_categories_only() {
    let mut lex = Lexicon::new(LexRng::from_seed(3));
    lex.cocategorize_magnitude = 0;
    let s = lex.source("console".to_string());
    let a = lex.author(s, "me".to_string());
    lex.tell(s, a, "alpha beta".to_string());
    // all categories are singletons: nothing to list
    assert!(lex.show_categories().is_empty());
    // merging two singletons yields one listed category
    let ca = {
        let w = lex.words.iter().position(|w| w.name == "alpha").unwrap();
        let i = lex.words[w].instances[0];
        lex.instances[i].category
    };
    let cb = {
        let w = lex.words.iter().position(|w| w.name == "beta").unwrap();
        let i = lex.words[w].instances[0];
        lex.instances[i].category
    };
    lex.merge(ca, cb);
    let lines = lex.show_categories();
    assert!(!lines.is_empty());
    assert_eq!(lines[0], "Category:");
    assert!(lines.iter().any(|l| l.contains("alpha")));
    assert!(lines.iter().any(|l| l.contains("beta")));
}

#[test]
fn tokenize_handles_multibyte_characters() {
    assert_eq!(tokenize("héllo wörld"), vec!["héllo", "wörld"]);
    assert_eq!(command_params("tell `héllo wörld`"), vec!["tell", "héllo wörld"]);
}

#[test]
fn parse_command_more_tunables() {
    match parse_command(&vec!["set".to_string(), "cc_magnitude".to_string(), "9".to_string()]) {
        Decision::SetCocategorizeMagnitude(v) => assert_eq!(v, 9),
        _ => panic!("expected set cc_magnitude"),
    }
    match parse_command(&vec!["set".to_string(), "fe_dist".to_string(), "2".to_string()]) {
        Decision::SetForwardEdgeDistance(v) => assert_eq!(v, 2),
        _ => panic!("expected set fe_dist"),
    }
    match parse_command(&vec!["set".to_string(), "bw_dist".to_string(), "4".to_string()]) {
        Decision::SetBackwardWordDistance(v) => assert_eq!(v, 4),
        _ => panic!("expected set bw_dist"),
    }
    assert!(matches!(
        parse_command(&vec!["get".to_string(), "cc_magnitude".to_string()]),
        Decision::GetCocategorizeMagnitude
    ));
    assert!(matches!(
        parse_command(&vec!["get".to_string(), "be_dist".to_string()]),
        Decision::GetBackwardEdgeDistance
    ));
    assert!(matches!(
        parse_command(&vec!["get".to_string(), "fw_dist".to_string()]),
        Decision::GetForwardWordDistance
    ));
    match parse_command(&vec!["relate".to_string(), "cats".to_string(), "dogs".to_string()]) {
        Decision::FindRelation(a, b) => {
            assert_eq!(a, "cats");
            assert_eq!(b, "dogs");
        },
        _ => panic!("expected relate"),
    }
    assert!(matches!(parse_command(&vec!["relate".to_string()]), Decision::Help));
}

#[test]
fn show_categories_block_structure() {
    let mut lex = Lexicon::new(LexRng::from_seed(5));
    lex.cocategorize_magnitude = 0;
    let s = lex.source("console".to_string());
    let a = lex.author(s, "me".to_string());
    lex.tell(s, a, "pa qa".to_string());
    lex.tell(s, a, "pb qb".to_string());
    let ca = {
        let w = lex.words.iter().position(|w| w.name == "pa").unwrap();
        let i = lex.words[w].instances[0];
        lex.instances[i].category
    };
    let cb = {
        let w = lex.words.iter().position(|w| w.name == "pb").unwrap();
        let i = lex.words[w].instances[0];
        lex.instances[i].category
    };
    let c = lex.merge(ca, cb);
    let lines = lex.show_categories();
    // one block: heading, no cocategory blocks, then one line per member
    assert_eq!(lines.len(), 1 + lex.categories[c].instances.len());
    assert_eq!(lines[0], "Category:");
    assert_eq!(lines[1], "\tpa ~ pa qa");
    assert_eq!(lines[2], "\tpb ~ pb qb");
}
