use dia::date::Date;
use dia::index::SearchIndex;
use dia::journal::{Core, Error, Namespace, Step};

fn day() -> Date {
    Date { year: 2025, month: 5, day: 6 }
}

fn assert_untouched(core: &Core, entries: usize, people: usize, links: usize) {
    assert_eq!(core.entry_count(), entries);
    assert_eq!(core.entity_count(Namespace::Person), people);
    assert_eq!(core.link_count(Namespace::Person), links);
    assert_eq!(core.entity_count(Namespace::Project), 0);
    assert_eq!(core.link_count(Namespace::Tag), 0);
    assert!(core.search("failing").unwrap().is_empty());
    assert!(core.get(entries as i64 + 1).is_err());
}

#[test]
fn fault_at_index_leaves_no_entry() {
    let mut core = Core::new();
    let r = core.ingest_with_fault("failing @Alice %Launch #urgent", None, day(), 0, Some(Step::Index));
    assert_eq!(r, Err(Error::Storage(Step::Index)));
    assert_untouched(&core, 0, 0, 0);
}

#[test]
fn fault_at_each_step_rolls_back() {
    for step in [Step::Entry, Step::Entities, Step::Links, Step::Index] {
        let mut core = Core::new();
        core.ingest("first @Bob", None, day(), 0).unwrap();
        let r = core.ingest_with_fault("failing @Alice %Launch #urgent", None, day(), 0, Some(step));
        assert_eq!(r, Err(Error::Storage(step)));
        assert_untouched(&core, 1, 1, 1);
        assert_eq!(core.search("first").unwrap(), vec![1]);
        assert_eq!(core.entity_id(Namespace::Person, "Alice"), None);
        let id = core.ingest("failing @Alice", None, day(), 0).unwrap();
        assert_eq!(id, 2);
        assert_eq!(core.entity_id(Namespace::Person, "Alice"), Some(2));
    }
}

#[test]
fn no_fault_commits() {
    let mut core = Core::new();
    let r = core.ingest_with_fault("fine #ok", None, day(), 0, None);
    assert_eq!(r, Ok(1));
    assert_eq!(core.link_count(Namespace::Tag), 1);
}

#[test]
fn index_then_search_round_trip() {
    let mut ix = SearchIndex::new();
    assert!(ix.index(7, "Shipping the Launch plan"));
    assert!(ix.index(9, "lunch plans"));
    assert_eq!(ix.search("launch").unwrap(), vec![7]);
    assert_eq!(ix.search("Shipping").unwrap(), vec![7]);
    assert_eq!(ix.search("ship").unwrap(), vec![7]);
    assert!(ix.search("absent").unwrap().is_empty());
    assert_eq!(ix.search("plans").unwrap(), vec![9, 7]);
    assert_eq!(ix.search("lunch").unwrap(), vec![9]);
    assert_eq!(ix.len(), 2);
}

#[test]
fn index_replaces_and_removes() {
    let mut ix = SearchIndex::new();
    assert!(ix.index(3, "old words"));
    assert!(ix.index(3, "new words"));
    assert_eq!(ix.len(), 1);
    assert!(ix.search("old").unwrap().is_empty());
    assert_eq!(ix.search("new").unwrap(), vec![3]);
    ix.remove(3);
    assert_eq!(ix.len(), 0);
    assert!(ix.search("new").unwrap().is_empty());
    ix.remove(3);
    assert_eq!(ix.len(), 0);
}
