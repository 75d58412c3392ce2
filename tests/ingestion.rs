use dia::date::{parse_date, today, Date};
use dia::journal::{Core, Error, Invalid, Namespace};
use dia::query::Filter;

fn day(year: i32, month: u32, day: u32) -> Date {
    Date { year, month, day }
}

#[test]
fn one_entry_with_three_sigils() {
    let mut core = Core::new();
    core.add_entry("Met @Alice about %Launch #urgent", None).unwrap();
    assert_eq!(core.entry_count(), 1);
    let e = core.get(1).unwrap();
    assert_eq!(e.date, today());
    assert_eq!(e.content, "Met @Alice about %Launch #urgent");
    assert_eq!(core.entity_count(Namespace::Person), 1);
    assert_eq!(core.entity_count(Namespace::Project), 1);
    assert_eq!(core.entity_count(Namespace::Tag), 1);
    assert_eq!(core.entity_id(Namespace::Person, "Alice"), Some(1));
    assert_eq!(core.entity_id(Namespace::Project, "Launch"), Some(1));
    assert_eq!(core.entity_id(Namespace::Tag, "urgent"), Some(1));
    assert_eq!(core.link_count(Namespace::Person), 1);
    assert_eq!(core.link_count(Namespace::Project), 1);
    assert_eq!(core.link_count(Namespace::Tag), 1);
    assert_eq!(core.search("urgent").unwrap(), vec![1]);
}

#[test]
fn same_text_twice() {
    let mut core = Core::new();
    core.add_entry("Met @Alice about %Launch #urgent", None).unwrap();
    core.add_entry("Met @Alice about %Launch #urgent", None).unwrap();
    assert_eq!(core.entry_count(), 2);
    for ns in [Namespace::Person, Namespace::Project, Namespace::Tag] {
        assert_eq!(core.entity_count(ns), 1);
        assert_eq!(core.link_count(ns), 2);
        assert_eq!(core.entries_for(ns, 1), vec![1, 2]);
    }
}

#[test]
fn text_without_sigils() {
    let mut core = Core::new();
    core.add_entry("no sigils here", None).unwrap();
    assert_eq!(core.entry_count(), 1);
    for ns in [Namespace::Person, Namespace::Project, Namespace::Tag] {
        assert_eq!(core.entity_count(ns), 0);
        assert_eq!(core.link_count(ns), 0);
    }
    assert_eq!(core.search("sigils").unwrap(), vec![1]);
    assert_eq!(core.search("sigil").unwrap(), vec![1]);
    assert_eq!(core.search("no").unwrap(), vec![1]);
    assert_eq!(core.search("here").unwrap(), vec![1]);
    let mut f = Filter::any();
    f.text = Some("sigil".to_string());
    let ids: Vec<i64> = core.filter(&f).unwrap().iter().map(|e| e.id).collect();
    assert_eq!(ids, vec![1]);
}

#[test]
fn malformed_date_writes_nothing() {
    let mut core = Core::new();
    let r = core.add_entry("Met @Alice about %Launch #urgent", Some("2025-13-40"));
    assert_eq!(r, Err(Error::Validation(Invalid::Date)));
    assert_eq!(core.entry_count(), 0);
    for ns in [Namespace::Person, Namespace::Project, Namespace::Tag] {
        assert_eq!(core.entity_count(ns), 0);
        assert_eq!(core.link_count(ns), 0);
    }
    assert!(core.search("urgent").unwrap().is_empty());
}

#[test]
fn filter_by_project() {
    let mut core = Core::new();
    core.add_entry("Met @Alice about %Launch #urgent", None).unwrap();
    let mut f = Filter::any();
    f.project = Some("Launch".to_string());
    let found = core.filter(&f).unwrap();
    assert_eq!(found.len(), 1);
    assert_eq!(found[0].id, 1);
    f.project = Some("Other".to_string());
    assert!(core.filter(&f).unwrap().is_empty());
}

#[test]
fn empty_content_is_refused() {
    let mut core = Core::new();
    assert_eq!(core.add_entry("", None), Err(Error::Validation(Invalid::EmptyContent)));
    assert_eq!(core.entry_count(), 0);
}

#[test]
fn explicit_date_is_kept() {
    let mut core = Core::new();
    let id = core.ingest("planning %Launch", Some("2025-03-01"), day(2030, 1, 1), 7).unwrap();
    assert_eq!(id, 1);
    let e = core.get(id).unwrap();
    assert_eq!(e.date, day(2025, 3, 1));
    assert_eq!(e.created_at, 7);
}

#[test]
fn missing_date_takes_the_given_day() {
    let mut core = Core::new();
    let id = core.ingest("plain", None, day(2024, 2, 29), 0).unwrap();
    assert_eq!(core.get(id).unwrap().date, day(2024, 2, 29));
}

#[test]
fn get_unknown_entry_is_not_found() {
    let core = Core::new();
    assert_eq!(core.get(1).err(), Some(Error::NotFound));
    assert_eq!(core.get(0).err(), Some(Error::NotFound));
}

#[test]
fn same_person_in_two_entries_shares_one_identifier() {
    let mut core = Core::new();
    core.add_entry("lunch with @Alice", None).unwrap();
    core.add_entry("@Bob and @Alice met", None).unwrap();
    assert_eq!(core.entity_count(Namespace::Person), 2);
    assert_eq!(core.entities_for(1, Namespace::Person), vec!["Alice"]);
    let mut second = core.entities_for(2, Namespace::Person);
    second.sort();
    assert_eq!(second, vec!["Alice", "Bob"]);
    assert_eq!(core.entries_for(Namespace::Person, 1), vec![1, 2]);
    assert_eq!(core.entries_for(Namespace::Person, 2), vec![2]);
    assert_eq!(core.entity_id(Namespace::Person, "Bob"), Some(2));
}

#[test]
fn repeated_reference_links_once() {
    let mut core = Core::new();
    core.add_entry("#x then #x and #x", None).unwrap();
    assert_eq!(core.entity_count(Namespace::Tag), 1);
    assert_eq!(core.link_count(Namespace::Tag), 1);
}

#[test]
fn namespaces_are_independent() {
    let mut core = Core::new();
    core.add_entry("@Atlas works on %Atlas #Atlas", None).unwrap();
    assert_eq!(core.entity_id(Namespace::Person, "Atlas"), Some(1));
    assert_eq!(core.entity_id(Namespace::Project, "Atlas"), Some(1));
    assert_eq!(core.entity_id(Namespace::Tag, "Atlas"), Some(1));
    assert_eq!(core.entity_count(Namespace::Person), 1);
}

#[test]
fn names_are_case_sensitive() {
    let mut core = Core::new();
    core.add_entry("@alice and @Alice", None).unwrap();
    assert_eq!(core.entity_count(Namespace::Person), 2);
}

#[test]
fn filter_orders_by_date_then_identifier() {
    let mut core = Core::new();
    core.ingest("a #t", Some("2025-01-02"), day(2000, 1, 1), 0).unwrap();
    core.ingest("b #t", Some("2025-03-01"), day(2000, 1, 1), 0).unwrap();
    core.ingest("c #t", Some("2025-01-02"), day(2000, 1, 1), 0).unwrap();
    core.ingest("d", Some("2024-12-31"), day(2000, 1, 1), 0).unwrap();
    let all: Vec<i64> = core.filter(&Filter::any()).unwrap().iter().map(|e| e.id).collect();
    assert_eq!(all, vec![2, 3, 1, 4]);
    let mut f = Filter::any();
    f.tag = Some("t".to_string());
    f.from = Some(day(2025, 1, 1));
    f.to = Some(day(2025, 2, 1));
    let some: Vec<i64> = core.filter(&f).unwrap().iter().map(|e| e.id).collect();
    assert_eq!(some, vec![3, 1]);
}

#[test]
fn filter_by_text_and_person() {
    let mut core = Core::new();
    core.add_entry("budget talk with @Carol", None).unwrap();
    core.add_entry("budget meeting", None).unwrap();
    core.add_entry("coffee with @Carol", None).unwrap();
    let mut f = Filter::any();
    f.text = Some("budget".to_string());
    f.person = Some("Carol".to_string());
    let ids: Vec<i64> = core.filter(&f).unwrap().iter().map(|e| e.id).collect();
    assert_eq!(ids, vec![1]);
}

#[test]
fn parse_date_reads_year_month_day() {
    assert_eq!(parse_date("2025-03-01"), Some(day(2025, 3, 1)));
    assert_eq!(parse_date("2025-02-30"), None);
    assert_eq!(parse_date("2024-02-29"), Some(day(2024, 2, 29)));
    assert_eq!(parse_date("2023-02-29"), None);
    assert_eq!(parse_date("not a date"), None);
}

#[test]
fn entities_keep_their_creation_time() {
    let mut core = Core::new();
    core.ingest("@Alice #a", None, day(2025, 1, 1), 42).unwrap();
    core.ingest("@Alice @Bob", None, day(2025, 1, 2), 99).unwrap();
    assert_eq!(core.people.created_at, vec![42, 99]);
    assert_eq!(core.tags.created_at, vec![42]);
}

#[test]
fn commit_writes_given_tokens() {
    let mut core = Core::new();
    let toks = dia::index::tokenize("planning %Launch").unwrap();
    let id = core.commit("planning %Launch", day(2025, 4, 1), 3, toks, None).unwrap();
    assert_eq!(id, 1);
    assert_eq!(core.get(1).unwrap().date, day(2025, 4, 1));
    assert_eq!(core.search("plan").unwrap(), vec![1]);
    assert_eq!(core.entity_id(Namespace::Project, "Launch"), Some(1));
}

#[test]
fn empty_text_filter_finds_nothing() {
    let mut core = Core::new();
    core.add_entry("something", None).unwrap();
    let mut f = Filter::any();
    f.text = Some(String::new());
    assert!(core.filter(&f).unwrap().is_empty());
    assert!(core.search("").unwrap().is_empty());
}

#[test]
fn repeated_filters_agree() {
    let mut core = Core::new();
    core.add_entry("one #t", Some("2025-01-01")).unwrap();
    core.add_entry("two #t", Some("2025-01-02")).unwrap();
    let mut f = Filter::any();
    f.tag = Some("t".to_string());
    let a: Vec<i64> = core.filter(&f).unwrap().iter().map(|e| e.id).collect();
    let b: Vec<i64> = core.filter(&f).unwrap().iter().map(|e| e.id).collect();
    assert_eq!(a, b);
    assert_eq!(a, vec![2, 1]);
}
