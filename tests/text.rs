use dia::completion::{find_word_at_pos, CompleterHelper, DiaCompleter};
use dia::index::tokenize;
use dia::journal::{Core, Namespace};
use dia::sigil::{extract, extract_refs};

#[test]
fn extract_in_scan_order_with_repeats() {
    let r = extract_refs("Met @Alice, @Bob and @Alice about %Launch-2 #urgent #x_y");
    assert_eq!(r.people, vec!["Alice", "Bob", "Alice"]);
    assert_eq!(r.projects, vec!["Launch-2"]);
    assert_eq!(r.tags, vec!["urgent", "x_y"]);
}

#[test]
fn bare_sigil_yields_nothing() {
    assert!(extract("@ alone, % and # too", '@').is_empty());
    assert!(extract("@ alone, % and # too", '%').is_empty());
    assert!(extract("@ alone, % and # too", '#').is_empty());
}

#[test]
fn sigils_do_not_overlap() {
    assert_eq!(extract("@@Alice@Bob", '@'), vec!["Alice", "Bob"]);
    assert_eq!(extract("mail a@b.c", '@'), vec!["b"]);
}

#[test]
fn unicode_word_characters_belong_to_names() {
    assert_eq!(extract("met @Zoë today", '@'), vec!["Zoë"]);
}

#[test]
fn tokens_are_lower_case_words() {
    assert_eq!(tokenize("Met about %Launch-Day, URGENT!").unwrap(), vec!["met", "about", "launch", "dai", "urgent"]);
    assert!(tokenize("  ,;  ").unwrap().is_empty());
}

#[test]
fn tokens_are_stemmed() {
    assert_eq!(tokenize("Connected RUNNING sigils, plans").unwrap(), vec!["connect", "run", "sigil", "plan"]);
    assert_eq!(tokenize("Café").unwrap(), vec!["cafe"]);
}

#[test]
fn search_matches_modulo_stemming() {
    let mut core = Core::new();
    core.add_entry("connecting the sigils", None).unwrap();
    assert_eq!(core.search("sigil").unwrap(), vec![1]);
    assert_eq!(core.search("Connected").unwrap(), vec![1]);
    assert!(core.search("sign").unwrap().is_empty());
}

#[test]
fn search_ignores_case_and_needs_every_token() {
    let mut core = Core::new();
    core.add_entry("Urgent fix for Launch", None).unwrap();
    core.add_entry("launch party", None).unwrap();
    assert_eq!(core.search("URGENT").unwrap(), vec![1]);
    assert_eq!(core.search("urgent launch").unwrap(), vec![1]);
    assert!(core.search("urgent party").unwrap().is_empty());
    assert!(core.search("").unwrap().is_empty());
    assert!(core.search("   ").unwrap().is_empty());
}

#[test]
fn search_ranks_by_term_frequency() {
    let mut core = Core::new();
    core.add_entry("launch", None).unwrap();
    core.add_entry("launch launch launch", None).unwrap();
    core.add_entry("launch launch", None).unwrap();
    core.add_entry("launch", None).unwrap();
    assert_eq!(core.search("launch").unwrap(), vec![2, 3, 4, 1]);
}

#[test]
fn find_word_at_pos_stops_at_separators() {
    assert_eq!(find_word_at_pos("met @Al", 7), (4, "@Al".to_string()));
    assert_eq!(find_word_at_pos("a,#ur", 5), (2, "#ur".to_string()));
    assert_eq!(find_word_at_pos("abc def", 2), (0, "ab".to_string()));
    assert_eq!(find_word_at_pos("abc ", 4), (4, String::new()));
    assert_eq!(find_word_at_pos("", 0), (0, String::new()));
}

#[test]
fn list_is_sorted() {
    let mut core = Core::new();
    core.add_entry("@bob @Alice @alice @Bo", None).unwrap();
    assert_eq!(core.list(Namespace::Person), vec!["Alice", "Bo", "alice", "bob"]);
}

#[test]
fn completion_offers_sorted_prefix_matches() {
    let mut core = Core::new();
    core.add_entry("@Alina @Bob @Alice %Alpha #al", None).unwrap();
    let (start, items) = core.complete("met @Al", 7);
    assert_eq!(start, 4);
    let shown: Vec<&str> = items.iter().map(|c| c.display.as_str()).collect();
    assert_eq!(shown, vec!["Alice", "Alina"]);
    assert_eq!(items[0].replacement, "@Alice");
    let (_, items) = core.complete("%", 1);
    assert_eq!(items.len(), 1);
    assert_eq!(items[0].replacement, "%Alpha");
    let (_, items) = core.complete("plain", 5);
    assert!(items.is_empty());
}

#[test]
fn completion_offers_at_most_ten() {
    let mut core = Core::new();
    core.add_entry("#t0 #t1 #t2 #t3 #t4 #t5 #t6 #t7 #t8 #t9 #t10 #t11", None).unwrap();
    let completer = DiaCompleter::new(core);
    let (_, items) = completer.complete("#t", 2);
    let shown: Vec<&str> = items.iter().map(|c| c.display.as_str()).collect();
    assert_eq!(shown, vec!["t0", "t1", "t10", "t11", "t2", "t3", "t4", "t5", "t6", "t7"]);
}

#[test]
fn helper_offers_nothing() {
    let h = CompleterHelper {};
    let (pos, items) = h.complete("@A", 2);
    assert_eq!(pos, 2);
    assert!(items.is_empty());
}

#[test]
fn connector_splits_terms_as_fts5_does() {
    assert_eq!(tokenize("bob_2").unwrap(), vec!["bob", "2"]);
    let mut core = Core::new();
    core.add_entry("met @bob_2 today", None).unwrap();
    assert_eq!(core.search("bob").unwrap(), vec![1]);
    assert_eq!(core.entity_id(Namespace::Person, "bob_2"), Some(1));
}

#[test]
fn text_without_words_has_no_tokens() {
    assert_eq!(tokenize("").unwrap(), Vec::<String>::new());
    assert_eq!(tokenize("-- ?!").unwrap(), Vec::<String>::new());
}
