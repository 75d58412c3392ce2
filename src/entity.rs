//! Plain records for display and export.
use vstd::prelude::*;

verus! {

/// An entry as shown to a reader: its date written `YYYY-MM-DD`.
pub struct Entry {
    pub id: i64,
    pub date: String,
    pub content: String,
}

pub struct Project {
    pub id: i64,
    pub name: String,
}

pub struct Tag {
    pub id: i64,
    pub name: String,
}

pub struct Person {
    pub id: i64,
    pub name: String,
}

/// An entry with the names of the entities it is linked to.
pub struct EntryWithRelations {
    pub id: i64,
    pub date: String,
    pub content: String,
    pub projects: Vec<String>,
    pub tags: Vec<String>,
    pub people: Vec<String>,
}

} // verus!
