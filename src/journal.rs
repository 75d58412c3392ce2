//! The store and the ingestion pipeline: an entry, its entities, its links
//! and its index record are written together or not at all.
use vstd::prelude::*;
use crate::date::{Date, ymd_of, parse_date, today, now_seconds};
use crate::index::{SearchIndex, by_relevance, hits, ids, tokenize, tokens, words};
use crate::links::LinkTable;
use crate::registry::{Registry, MAX_ROWS};
use crate::sigil::{refs, views, extract_refs};

verus! {

/// One of the three independent namespaces of entities.
#[derive(Clone, Copy, Debug, PartialEq, Eq, Structural)]
pub enum Namespace {
    Person,
    Project,
    Tag,
}

/// The character that marks a reference into `ns`.
pub open spec fn sigil_of(ns: Namespace) -> char {
    match ns {
        Namespace::Person => '@',
        Namespace::Project => '%',
        Namespace::Tag => '#',
    }
}

/// The names that `s` references in `ns`.
pub open spec fn ns_refs(ns: Namespace, s: Seq<char>) -> Seq<Seq<char>> {
    refs(s, sigil_of(ns))
}

/// Why caller-supplied input was refused.
#[derive(Clone, Copy, Debug, PartialEq, Eq, Structural)]
pub enum Invalid {
    EmptyContent,
    Date,
}

/// The pipeline step at which the store refused a write.
#[derive(Clone, Copy, Debug, PartialEq, Eq, Structural)]
pub enum Step {
    Entry,
    Entities,
    Links,
    Index,
}

#[derive(Clone, Copy, Debug, PartialEq, Eq, Structural)]
pub enum Error {
    /// The content or the date failed a precondition.
    Validation(Invalid),
    /// A table of the store is full.
    Storage(Step),
    /// No row has the identifier asked for.
    NotFound,
}

/// A committed entry.
#[derive(Debug)]
pub struct Entry {
    pub id: i64,
    pub content: String,
    pub date: Date,
    /// Seconds since the Unix epoch when the entry was stored.
    pub created_at: i64,
}

impl Entry {
    /// A copy of the entry.
    pub fn duplicate(&self) -> (r: Entry)
        ensures
            r == *self,
    {
        Entry {
            id: self.id,
            content: self.content.clone(),
            date: self.date,
            created_at: self.created_at,
        }
    }
}

/// The whole store: entries, entities, links and the search index.
pub struct Core {
    pub entries: Vec<Entry>,
    pub people: Registry,
    pub projects: Registry,
    pub tags: Registry,
    pub entry_people: LinkTable,
    pub entry_projects: LinkTable,
    pub entry_tags: LinkTable,
    pub index: SearchIndex,
}

impl Core {
    pub open spec fn registry(&self, ns: Namespace) -> Registry {
        match ns {
            Namespace::Person => self.people,
            Namespace::Project => self.projects,
            Namespace::Tag => self.tags,
        }
    }

    pub open spec fn links(&self, ns: Namespace) -> LinkTable {
        match ns {
            Namespace::Person => self.entry_people,
            Namespace::Project => self.entry_projects,
            Namespace::Tag => self.entry_tags,
        }
    }

    pub open spec fn content(&self, k: int) -> Seq<char> {
        self.entries@[k].content@
    }

    /// The `i`-th reference in `ns` of the entry at position `k`.
    pub open spec fn ref_at(&self, ns: Namespace, k: int, i: int) -> Seq<char> {
        ns_refs(ns, self.content(k))[i]
    }

    /// Entry `entry_id` is linked to the entity of `ns` named `name`.
    pub open spec fn linked(&self, ns: Namespace, entry_id: i64, name: Seq<char>) -> bool {
        exists|j: int|
            0 <= j < self.registry(ns)@.len() && #[trigger] self.registry(ns)@[j] == name
                && self.links(ns)@.contains((entry_id, (j + 1) as i64))
    }

    /// Every link joins a stored entry to a stored entity.
    pub open spec fn links_valid(&self, ns: Namespace) -> bool {
        forall|p: (i64, i64)|
            #[trigger] self.links(ns)@.contains(p) ==> 1 <= p.0 <= self.entries@.len() && 1 <= p.1
                <= self.registry(ns)@.len()
    }

    /// Every reference of every entry has its entity and its link.
    pub open spec fn refs_resolved(&self, ns: Namespace) -> bool {
        forall|k: int, i: int|
            0 <= k < self.entries@.len() && 0 <= i < ns_refs(ns, self.content(k)).len()
                ==> self.linked(ns, (k + 1) as i64, #[trigger] self.ref_at(ns, k, i))
    }

    pub open spec fn ns_wf(&self, ns: Namespace) -> bool {
        &&& self.registry(ns).wf()
        &&& self.links(ns).wf()
        &&& self.links_valid(ns)
        &&& self.refs_resolved(ns)
    }

    /// The store's invariants: identifiers follow positions, names are
    /// unique per namespace, links are unique and point at stored rows,
    /// every reference is resolved, and the index holds one record per
    /// entry, made from its content.
    pub open spec fn wf(&self) -> bool {
        &&& self.entries@.len() <= MAX_ROWS
        &&& forall|k: int|
            0 <= k < self.entries@.len() ==> (#[trigger] self.entries@[k]).id == k + 1
                && self.entries@[k].date.wf()
        &&& self.ns_wf(Namespace::Person)
        &&& self.ns_wf(Namespace::Project)
        &&& self.ns_wf(Namespace::Tag)
        &&& self.index.wf()
        &&& self.index@.len() == self.entries@.len()
        &&& forall|k: int|
            0 <= k < self.entries@.len() ==> #[trigger] self.index@[k] == (
                (k + 1) as i64,
                tokens(self.content(k)),
            )
    }

    /// An empty store.
    pub fn new() -> (r: Core)
        ensures
            r.wf(),
            r.entries@.len() == 0,
            r.people@.len() == 0,
            r.projects@.len() == 0,
            r.tags@.len() == 0,
    {
        Core {
            entries: Vec::new(),
            people: Registry::new(),
            projects: Registry::new(),
            tags: Registry::new(),
            entry_people: LinkTable::new(),
            entry_projects: LinkTable::new(),
            entry_tags: LinkTable::new(),
            index: SearchIndex::new(),
        }
    }

    /// Ingests `content`, dated `date` (`YYYY-MM-DD`) or `today` when no
    /// date is given, as one transaction: the entry, the entities it
    /// references, its links and its index record are all written, or on
    /// any error nothing is. Returns the new entry's identifier.
    pub fn ingest(&mut self, content: &str, date: Option<&str>, today: Date, created_at: i64) -> (r: Result<i64, Error>)
        requires
            old(self).wf(),
            today.wf(),
        ensures
            final(self).wf(),
            r is Err ==> same_tables(*final(self), *old(self)),
            !date_ok(date) ==> r == Err::<i64, Error>(Error::Validation(Invalid::Date)),
            date_ok(date) && content@.len() == 0 ==> r == Err::<i64, Error>(
                Error::Validation(Invalid::EmptyContent),
            ),
            date_ok(date) && content@.len() > 0 && old(self).entries@.len() >= MAX_ROWS
                ==> r == Err::<i64, Error>(Error::Storage(Step::Entry)),
            date_ok(date) && content@.len() > 0 && old(self).entries@.len() < MAX_ROWS
                && !room_for(*old(self), content@) ==> r == Err::<i64, Error>(Error::Storage(Step::Entities)),
            date_ok(date) && content@.len() > 0 && room_for(*old(self), content@) ==> r is Ok || r
                == Err::<i64, Error>(Error::Storage(Step::Index)),
            date_ok(date) && content@.len() > 0 && room_for(*old(self), content@) && words(content@).len() == 0
                ==> r is Ok,
            r is Ok ==> {
                let e = final(self).entries@.last();
                &&& r->Ok_0 == e.id
                &&& e.content@ == content@
                &&& e.created_at == created_at
                &&& match date {
                    None => e.date == today,
                    Some(d) => ymd_of(d@) == Some((e.date.year, e.date.month, e.date.day)),
                }
                &&& ingested(*old(self), *final(self), e)
            },
    {
        self.ingest_with_fault(content, date, today, created_at, None)
    }

    /// `ingest`, made to fail on purpose once the step `fault` has written
    /// (a fault at `Entities` or `Links` strikes once both are written):
    /// everything written so far is rolled back. The content is tokenized
    /// before anything is written; when the stemmer fails the result is
    /// `Storage(Index)` and nothing is written. `commit` does the writing.
    pub fn ingest_with_fault(
        &mut self,
        content: &str,
        date: Option<&str>,
        today: Date,
        created_at: i64,
        fault: Option<Step>,
    ) -> (r: Result<i64, Error>)
        requires
            old(self).wf(),
            today.wf(),
        ensures
            final(self).wf(),
            r is Err ==> same_tables(*final(self), *old(self)),
            !date_ok(date) ==> r == Err::<i64, Error>(Error::Validation(Invalid::Date)),
            date_ok(date) && content@.len() == 0 ==> r == Err::<i64, Error>(
                Error::Validation(Invalid::EmptyContent),
            ),
            date_ok(date) && content@.len() > 0 && old(self).entries@.len() >= MAX_ROWS
                ==> r == Err::<i64, Error>(Error::Storage(Step::Entry)),
            date_ok(date) && content@.len() > 0 && old(self).entries@.len() < MAX_ROWS
                && !room_for(*old(self), content@) ==> r == Err::<i64, Error>(Error::Storage(Step::Entities)),
            date_ok(date) && content@.len() > 0 && room_for(*old(self), content@) ==> (fault matches Some(
                step,
            ) ==> r == Err::<i64, Error>(Error::Storage(step)) || r == Err::<i64, Error>(Error::Storage(Step::Index))),
            date_ok(date) && content@.len() > 0 && room_for(*old(self), content@) && words(content@).len() == 0
                ==> (fault matches Some(step) ==> r == Err::<i64, Error>(Error::Storage(step))),
            date_ok(date) && content@.len() > 0 && room_for(*old(self), content@) && words(content@).len() == 0
                && fault is None ==> r is Ok,
            date_ok(date) && content@.len() > 0 && room_for(*old(self), content@) && fault is None ==> r is Ok
                || r == Err::<i64, Error>(Error::Storage(Step::Index)),
            r is Ok ==> {
                let e = final(self).entries@.last();
                &&& r->Ok_0 == e.id
                &&& e.content@ == content@
                &&& e.created_at == created_at
                &&& match date {
                    None => e.date == today,
                    Some(d) => ymd_of(d@) == Some((e.date.year, e.date.month, e.date.day)),
                }
                &&& ingested(*old(self), *final(self), e)
            },
    {
        let d = match date {
            None => today,
            Some(text) => match parse_date(text) {
                Some(d) => d,
                None => {
                    return Err(Error::Validation(Invalid::Date));
                },
            },
        };
        if content.unicode_len() == 0 {
            return Err(Error::Validation(Invalid::EmptyContent));
        }
        if self.entries.len() >= MAX_ROWS {
            return Err(Error::Storage(Step::Entry));
        }
        let found = extract_refs(content);
        if found.people.len() > MAX_ROWS - self.people.len() || found.projects.len() > MAX_ROWS
            - self.projects.len() || found.tags.len() > MAX_ROWS - self.tags.len() {
            proof {
                assert(!room_for(*self, content@)) by {
                    if found.people@.len() > MAX_ROWS - self.people@.len() {
                        assert(self.registry(Namespace::Person)@.len() + ns_refs(Namespace::Person, content@).len() > MAX_ROWS);
                    } else if found.projects@.len() > MAX_ROWS - self.projects@.len() {
                        assert(self.registry(Namespace::Project)@.len() + ns_refs(Namespace::Project, content@).len() > MAX_ROWS);
                    } else {
                        assert(self.registry(Namespace::Tag)@.len() + ns_refs(Namespace::Tag, content@).len() > MAX_ROWS);
                    }
                }
            }
            return Err(Error::Storage(Step::Entities));
        }
        match tokenize(content) {
            Some(toks) => self.commit(content, d, created_at, toks, fault),
            None => Err(Error::Storage(Step::Index)),
        }
    }

    /// Writes, as one transaction, the entry `content` dated `day`, the
    /// entities it references, its links, and `toks`, the tokens of
    /// `content`, as its index record. A `fault` makes the transaction fail
    /// on purpose once that step has written (a fault at `Entities` or
    /// `Links` strikes once both are written), and rolls everything back.
    pub fn commit(&mut self, content: &str, day: Date, created_at: i64, toks: Vec<String>, fault: Option<Step>) -> (r: Result<i64, Error>)
        requires
            old(self).wf(),
            day.wf(),
            room_for(*old(self), content@),
            views(toks@) == tokens(content@),
        ensures
            final(self).wf(),
            fault matches Some(step) ==> r == Err::<i64, Error>(Error::Storage(step)) && same_tables(
                *final(self),
                *old(self),
            ),
            fault is None ==> r is Ok,
            r is Ok ==> {
                let e = final(self).entries@.last();
                &&& r->Ok_0 == e.id
                &&& e.content@ == content@
                &&& e.created_at == created_at
                &&& e.date == day
                &&& ingested(*old(self), *final(self), e)
            },
    {
        let found = extract_refs(content);
        let ghost pre = *self;
        let marks = self.marks();
        let id = (self.entries.len() + 1) as i64;
        let entry = Entry { id, content: content.to_owned(), date: day, created_at };
        let ghost e = entry;
        self.entries.push(entry);
        if fault == Some(Step::Entry) {
            self.roll_back(&marks, Ghost(pre));
            return Err(Error::Storage(Step::Entry));
        }
        proof {
            assert(self.registry(Namespace::Person)@.len() + ns_refs(Namespace::Person, content@).len() <= MAX_ROWS);
            assert(self.registry(Namespace::Project)@.len() + ns_refs(Namespace::Project, content@).len() <= MAX_ROWS);
            assert(self.registry(Namespace::Tag)@.len() + ns_refs(Namespace::Tag, content@).len() <= MAX_ROWS);
        }
        resolve(&mut self.people, &mut self.entry_people, &found.people, id, created_at);
        resolve(&mut self.projects, &mut self.entry_projects, &found.projects, id, created_at);
        resolve(&mut self.tags, &mut self.entry_tags, &found.tags, id, created_at);
        if fault == Some(Step::Entities) || fault == Some(Step::Links) {
            self.roll_back(&marks, Ghost(pre));
            return Err(Error::Storage(fault.unwrap()));
        }
        proof {
            assert(!ids(pre.index@).contains(id)) by {
                if ids(pre.index@).contains(id) {
                    let j = choose|j: int| 0 <= j < ids(pre.index@).len() && ids(pre.index@)[j] == id;
                    assert(pre.index@[j].0 == j + 1);
                }
            }
        }
        self.index.index_tokens(id, toks);
        if fault == Some(Step::Index) {
            self.roll_back(&marks, Ghost(pre));
            return Err(Error::Storage(Step::Index));
        }
        proof {
            assert(grew(pre, *self, Namespace::Person, id, content@));
            assert(grew(pre, *self, Namespace::Project, id, content@));
            assert(grew(pre, *self, Namespace::Tag, id, content@));
            lemma_grew_keeps_ns_wf(pre, *self, Namespace::Person, e);
            lemma_grew_keeps_ns_wf(pre, *self, Namespace::Project, e);
            lemma_grew_keeps_ns_wf(pre, *self, Namespace::Tag, e);
            assert forall|ns: Namespace| #[trigger] grew(pre, *self, ns, e.id, e.content@) by {
                match ns {
                    Namespace::Person => {},
                    Namespace::Project => {},
                    Namespace::Tag => {},
                }
            }
            assert forall|k: int| 0 <= k < self.entries@.len() implies #[trigger] self.index@[k] == (
                (k + 1) as i64,
                tokens(self.content(k)),
            ) by {
                if k < pre.entries@.len() {
                    assert(self.entries@[k] == pre.entries@[k]);
                }
            }
        }
        Ok(id)
    }

    /// The length of every table.
    fn marks(&self) -> (m: Marks)
        ensures
            marks_of(m, *self),
            m.entries == self.entries@.len(),
            m.people == self.people.names@.len(),
            m.projects == self.projects.names@.len(),
            m.tags == self.tags.names@.len(),
            m.entry_people == self.entry_people@.len(),
            m.entry_projects == self.entry_projects@.len(),
            m.entry_tags == self.entry_tags@.len(),
            m.index == self.index.records@.len(),
    {
        Marks {
            entries: self.entries.len(),
            people: self.people.names.len(),
            projects: self.projects.names.len(),
            tags: self.tags.names.len(),
            entry_people: self.entry_people.pairs.len(),
            entry_projects: self.entry_projects.pairs.len(),
            entry_tags: self.entry_tags.pairs.len(),
            index: self.index.records.len(),
        }
    }

    /// Cuts every table back to the length that `m` recorded of `pre`,
    /// whose tables this store's tables extend.
    fn roll_back(&mut self, m: &Marks, Ghost(pre): Ghost<Core>)
        requires
            pre.wf(),
            marks_of(*m, pre),
            extends_tables(*old(self), pre),
        ensures
            final(self).wf(),
            same_tables(*final(self), pre),
    {
        self.entries.truncate(m.entries);
        self.people.names.truncate(m.people);
        self.people.created_at.truncate(m.people);
        self.projects.names.truncate(m.projects);
        self.projects.created_at.truncate(m.projects);
        self.tags.names.truncate(m.tags);
        self.tags.created_at.truncate(m.tags);
        self.entry_people.pairs.truncate(m.entry_people);
        self.entry_projects.pairs.truncate(m.entry_projects);
        self.entry_tags.pairs.truncate(m.entry_tags);
        self.index.records.truncate(m.index);
        proof {
            assert(self.entries@ =~= pre.entries@);
            assert(self.people.names@ =~= pre.people.names@);
            assert(self.people.created_at@ =~= pre.people.created_at@);
            assert(self.projects.names@ =~= pre.projects.names@);
            assert(self.projects.created_at@ =~= pre.projects.created_at@);
            assert(self.tags.names@ =~= pre.tags.names@);
            assert(self.tags.created_at@ =~= pre.tags.created_at@);
            assert(self.entry_people@ =~= pre.entry_people@);
            assert(self.entry_projects@ =~= pre.entry_projects@);
            assert(self.entry_tags@ =~= pre.entry_tags@);
            assert(self.index.records@ =~= pre.index.records@);
            lemma_rolled_back(pre, *self);
        }
    }

    /// Ingests `content` as `ingest` does, dated by the local calendar
    /// date when no date is given and stamped with the current time.
    pub fn add_entry(&mut self, content: &str, date: Option<&str>) -> (r: Result<(), Error>)
        requires
            old(self).wf(),
        ensures
            final(self).wf(),
            r is Err ==> same_tables(*final(self), *old(self)),
            !date_ok(date) ==> r == Err::<(), Error>(Error::Validation(Invalid::Date)),
            date_ok(date) && content@.len() == 0 ==> r == Err::<(), Error>(
                Error::Validation(Invalid::EmptyContent),
            ),
            date_ok(date) && content@.len() > 0 && old(self).entries@.len() >= MAX_ROWS
                ==> r == Err::<(), Error>(Error::Storage(Step::Entry)),
            date_ok(date) && content@.len() > 0 && old(self).entries@.len() < MAX_ROWS
                && !room_for(*old(self), content@) ==> r == Err::<(), Error>(Error::Storage(Step::Entities)),
            date_ok(date) && content@.len() > 0 && room_for(*old(self), content@) ==> r is Ok || r
                == Err::<(), Error>(Error::Storage(Step::Index)),
            date_ok(date) && content@.len() > 0 && room_for(*old(self), content@) && words(content@).len() == 0
                ==> r is Ok,
            r is Ok ==> {
                let e = final(self).entries@.last();
                &&& e.content@ == content@
                &&& match date {
                    None => e.date.wf(),
                    Some(d) => ymd_of(d@) == Some((e.date.year, e.date.month, e.date.day)),
                }
                &&& ingested(*old(self), *final(self), e)
            },
    {
        let day = today();
        let stamp = now_seconds();
        match self.ingest(content, date, day, stamp) {
            Ok(_) => Ok(()),
            Err(e) => Err(e),
        }
    }

    /// The entry with identifier `id`.
    pub fn get(&self, id: i64) -> (r: Result<Entry, Error>)
        requires
            self.wf(),
        ensures
            1 <= id <= self.entries@.len() ==> r == Ok::<Entry, Error>(self.entries@[id - 1]),
            !(1 <= id <= self.entries@.len()) ==> r == Err::<Entry, Error>(Error::NotFound),
    {
        if id < 1 || id as u64 > self.entries.len() as u64 {
            return Err(Error::NotFound);
        }
        Ok(self.entries[(id - 1) as usize].duplicate())
    }

    /// The number of committed entries.
    pub fn entry_count(&self) -> (n: usize)
        ensures
            n == self.entries@.len(),
    {
        self.entries.len()
    }

    /// The identifier of the entity of `ns` named `name`, if there is one.
    pub fn entity_id(&self, ns: Namespace, name: &str) -> (r: Option<i64>)
        requires
            self.wf(),
        ensures
            match r {
                Some(id) => 1 <= id <= self.registry(ns)@.len() && self.registry(ns)@[id - 1] == name@,
                None => !self.registry(ns)@.contains(name@),
            },
    {
        match ns {
            Namespace::Person => self.people.lookup(name),
            Namespace::Project => self.projects.lookup(name),
            Namespace::Tag => self.tags.lookup(name),
        }
    }

    /// The names of the entities of `ns` that entry `entry_id` is linked to.
    pub fn entities_for(&self, entry_id: i64, ns: Namespace) -> (r: Vec<String>)
        requires
            self.wf(),
        ensures
            forall|x: Seq<char>| #[trigger] views(r@).contains(x) <==> self.linked(ns, entry_id, x),
    {
        proof {
            assert(self.ns_wf(ns)) by {
                match ns {
                    Namespace::Person => {},
                    Namespace::Project => {},
                    Namespace::Tag => {},
                }
            }
        }
        let reg = match ns {
            Namespace::Person => &self.people,
            Namespace::Project => &self.projects,
            Namespace::Tag => &self.tags,
        };
        let ids = match ns {
            Namespace::Person => self.entry_people.entities_for(entry_id),
            Namespace::Project => self.entry_projects.entities_for(entry_id),
            Namespace::Tag => self.entry_tags.entities_for(entry_id),
        };
        let ghost names = self.registry(ns)@;
        assert(reg@ == names);
        let mut out: Vec<String> = Vec::new();
        let mut k: usize = 0;
        while k < ids.len()
            invariant
                self.ns_wf(ns),
                reg@ == self.registry(ns)@,
                names == reg@,
                k <= ids@.len(),
                forall|x: i64| ids@.contains(x) <==> self.links(ns)@.contains((entry_id, x)),
                forall|x: Seq<char>|
                    #[trigger] views(out@).contains(x) <==> exists|a: int|
                        0 <= a < k && 1 <= #[trigger] ids@[a] <= names.len() && names[ids@[a] - 1] == x,
            decreases ids@.len() - k,
        {
            let id = ids[k];
            proof {
                assert(ids@.contains(id));
                assert(self.links(ns)@.contains((entry_id, id)));
            }
            let name = reg.names[(id - 1) as usize].clone();
            let ghost prev = views(out@);
            out.push(name);
            proof {
                assert(views(out@) =~= prev.push(name@));
                assert(name@ == names[id - 1]);
                assert forall|x: Seq<char>|
                    #[trigger] views(out@).contains(x) <==> exists|a: int|
                        0 <= a < k + 1 && 1 <= #[trigger] ids@[a] <= names.len() && names[ids@[a] - 1] == x by {
                    if views(out@).contains(x) && x != name@ {
                        let i = choose|i: int| 0 <= i < views(out@).len() && views(out@)[i] == x;
                        assert(prev[i] == x);
                        assert(prev.contains(x));
                    }
                    if prev.contains(x) {
                        let i = choose|i: int| 0 <= i < prev.len() && prev[i] == x;
                        assert(views(out@)[i] == x);
                    }
                    if x == name@ {
                        assert(views(out@)[prev.len() as int] == x);
                    }
                    if exists|a: int| 0 <= a < k + 1 && 1 <= #[trigger] ids@[a] <= names.len() && names[ids@[a] - 1] == x {
                        let a = choose|a: int| 0 <= a < k + 1 && 1 <= #[trigger] ids@[a] <= names.len() && names[ids@[a] - 1] == x;
                        if a == k {
                            assert(x == name@);
                        }
                    }
                }
            }
            k = k + 1;
        }
        proof {
            assert forall|x: Seq<char>| #[trigger] views(out@).contains(x) <==> self.linked(ns, entry_id, x) by {
                if views(out@).contains(x) {
                    let a = choose|a: int| 0 <= a < ids@.len() && 1 <= #[trigger] ids@[a] <= names.len() && names[ids@[a] - 1] == x;
                    assert(ids@.contains(ids@[a]));
                    let j = ids@[a] - 1;
                    assert(self.registry(ns)@[j] == x);
                    assert(self.links(ns)@.contains((entry_id, (j + 1) as i64)));
                }
                if self.linked(ns, entry_id, x) {
                    let j = choose|j: int|
                        0 <= j < self.registry(ns)@.len() && #[trigger] self.registry(ns)@[j] == x
                            && self.links(ns)@.contains((entry_id, (j + 1) as i64));
                    assert(ids@.contains((j + 1) as i64));
                    let a = choose|a: int| 0 <= a < ids@.len() && ids@[a] == (j + 1) as i64;
                    assert(names[ids@[a] - 1] == x);
                }
            }
        }
        out
    }

    /// The entries linked to the entity `entity_id` of `ns`.
    pub fn entries_for(&self, ns: Namespace, entity_id: i64) -> (r: Vec<i64>)
        ensures
            forall|e: i64| r@.contains(e) <==> self.links(ns)@.contains((e, entity_id)),
    {
        match ns {
            Namespace::Person => self.entry_people.entries_for(entity_id),
            Namespace::Project => self.entry_projects.entries_for(entity_id),
            Namespace::Tag => self.entry_tags.entries_for(entity_id),
        }
    }

    /// The number of entities of `ns`.
    pub fn entity_count(&self, ns: Namespace) -> (n: usize)
        ensures
            n == self.registry(ns)@.len(),
    {
        match ns {
            Namespace::Person => self.people.len(),
            Namespace::Project => self.projects.len(),
            Namespace::Tag => self.tags.len(),
        }
    }

    /// The number of links of `ns`.
    pub fn link_count(&self, ns: Namespace) -> (n: usize)
        ensures
            n == self.links(ns)@.len(),
    {
        match ns {
            Namespace::Person => self.entry_people.len(),
            Namespace::Project => self.entry_projects.len(),
            Namespace::Tag => self.entry_tags.len(),
        }
    }

    /// The entries whose content holds every token of `query`, most
    /// relevant first; `None` when the stemmer fails.
    pub fn search(&self, query: &str) -> (r: Option<Vec<i64>>)
        requires
            self.wf(),
        ensures
            words(query@).len() == 0 ==> (r matches Some(v) && v@.len() == 0),
            r matches Some(v) ==> {
                &&& v@.to_set() == hits(self.index@, tokens(query@))
                &&& v@.no_duplicates()
                &&& by_relevance(self.index@, tokens(query@), v@)
            },
    {
        self.index.search(query)
    }
}

/// The length of each table of a store, taken before a transaction.
struct Marks {
    entries: usize,
    people: usize,
    projects: usize,
    tags: usize,
    entry_people: usize,
    entry_projects: usize,
    entry_tags: usize,
    index: usize,
}

/// `m` holds the length of every table of `c`.
spec fn marks_of(m: Marks, c: Core) -> bool {
    &&& m.entries == c.entries@.len()
    &&& m.people == c.people.names@.len()
    &&& m.projects == c.projects.names@.len()
    &&& m.tags == c.tags.names@.len()
    &&& m.entry_people == c.entry_people@.len()
    &&& m.entry_projects == c.entry_projects@.len()
    &&& m.entry_tags == c.entry_tags@.len()
    &&& m.index == c.index.records@.len()
}

/// Every table of `post` starts with the rows of the same table of `pre`.
pub open spec fn extends_tables(post: Core, pre: Core) -> bool {
    &&& pre.entries@.is_prefix_of(post.entries@)
    &&& pre.people.names@.is_prefix_of(post.people.names@)
    &&& pre.people.created_at@.is_prefix_of(post.people.created_at@)
    &&& pre.projects.names@.is_prefix_of(post.projects.names@)
    &&& pre.projects.created_at@.is_prefix_of(post.projects.created_at@)
    &&& pre.tags.names@.is_prefix_of(post.tags.names@)
    &&& pre.tags.created_at@.is_prefix_of(post.tags.created_at@)
    &&& pre.entry_people@.is_prefix_of(post.entry_people@)
    &&& pre.entry_projects@.is_prefix_of(post.entry_projects@)
    &&& pre.entry_tags@.is_prefix_of(post.entry_tags@)
    &&& pre.index.records@.is_prefix_of(post.index.records@)
}

/// `a` and `b` hold the same rows in every table.
pub open spec fn same_tables(a: Core, b: Core) -> bool {
    &&& a.entries@ == b.entries@
    &&& a.people.names@ == b.people.names@
    &&& a.people.created_at@ == b.people.created_at@
    &&& a.projects.names@ == b.projects.names@
    &&& a.projects.created_at@ == b.projects.created_at@
    &&& a.tags.names@ == b.tags.names@
    &&& a.tags.created_at@ == b.tags.created_at@
    &&& a.entry_people@ == b.entry_people@
    &&& a.entry_projects@ == b.entry_projects@
    &&& a.entry_tags@ == b.entry_tags@
    &&& a.index.records@ == b.index.records@
}

/// A store whose tables hold the rows of a well-formed store is well formed.
proof fn lemma_rolled_back(pre: Core, post: Core)
    requires
        pre.wf(),
        same_tables(post, pre),
    ensures
        post.wf(),
        same_tables(post, pre),
{
    assert(post.people@ == pre.people@);
    assert(post.projects@ == pre.projects@);
    assert(post.tags@ == pre.tags@);
    assert(post.index@ == pre.index@);
    lemma_same_ns(pre, post, Namespace::Person);
    lemma_same_ns(pre, post, Namespace::Project);
    lemma_same_ns(pre, post, Namespace::Tag);
}

proof fn lemma_same_ns(pre: Core, post: Core, ns: Namespace)
    requires
        pre.ns_wf(ns),
        same_tables(post, pre),
        post.entries@ == pre.entries@,
        post.people@ == pre.people@,
        post.projects@ == pre.projects@,
        post.tags@ == pre.tags@,
        post.entry_people@ == pre.entry_people@,
        post.entry_projects@ == pre.entry_projects@,
        post.entry_tags@ == pre.entry_tags@,
    ensures
        post.ns_wf(ns),
{
    assert(post.registry(ns)@ == pre.registry(ns)@ && post.links(ns)@ == pre.links(ns)@
        && post.registry(ns).created_at@.len() == post.registry(ns).names@.len()) by {
        match ns {
            Namespace::Person => {},
            Namespace::Project => {},
            Namespace::Tag => {},
        }
    }
    assert forall|k: int, i: int|
        0 <= k < post.entries@.len() && 0 <= i < ns_refs(ns, post.content(k)).len()
            implies post.linked(ns, (k + 1) as i64, #[trigger] post.ref_at(ns, k, i)) by {
        assert(post.ref_at(ns, k, i) == pre.ref_at(ns, k, i));
        let name = pre.ref_at(ns, k, i);
        assert(pre.linked(ns, (k + 1) as i64, name));
        let j = choose|j: int|
            0 <= j < pre.registry(ns)@.len() && #[trigger] pre.registry(ns)@[j] == name
                && pre.links(ns)@.contains(((k + 1) as i64, (j + 1) as i64));
        assert(post.registry(ns)@[j] == name);
    }
}

/// The date given, if any, reads as `%Y-%m-%d`.
pub open spec fn date_ok(date: Option<&str>) -> bool {
    match date {
        None => true,
        Some(d) => ymd_of(d@) is Some,
    }
}

/// How the store changed when `entry` was ingested into it.
pub open spec fn ingested(pre: Core, post: Core, entry: Entry) -> bool {
    &&& entry.id == pre.entries@.len() + 1
    &&& post.entries@ == pre.entries@.push(entry)
    &&& post.index@ == pre.index@.push((entry.id, tokens(entry.content@)))
    &&& forall|ns: Namespace| #[trigger] grew(pre, post, ns, entry.id, entry.content@)
}

/// In `ns`, `post` holds the entities and links of `pre`, the entities that
/// `content` references, and a link from `entry_id` to each of them; and
/// nothing else.
pub open spec fn grew(pre: Core, post: Core, ns: Namespace, entry_id: i64, content: Seq<char>) -> bool {
    let r0 = pre.registry(ns)@;
    let r1 = post.registry(ns)@;
    &&& r1.len() >= r0.len()
    &&& r1.subrange(0, r0.len() as int) == r0
    &&& forall|x: Seq<char>| #[trigger] r1.contains(x) <==> r0.contains(x) || ns_refs(ns, content).contains(x)
    &&& forall|p: (i64, i64)|
        #[trigger] post.links(ns)@.contains(p) <==> pre.links(ns)@.contains(p) || (p.0 == entry_id && 1 <= p.1 <= r1.len()
            && ns_refs(ns, content).contains(r1[p.1 - 1]))
}

/// There is room in every table for an entry with `content`.
pub open spec fn room_for(core: Core, content: Seq<char>) -> bool {
    &&& core.entries@.len() < MAX_ROWS
    &&& forall|ns: Namespace| #[trigger] core.registry(ns)@.len() + ns_refs(ns, content).len() <= MAX_ROWS
}

proof fn lemma_grew_keeps_ns_wf(pre: Core, post: Core, ns: Namespace, entry: Entry)
    requires
        pre.ns_wf(ns),
        post.registry(ns).wf(),
        post.links(ns).wf(),
        entry.id == pre.entries@.len() + 1,
        post.entries@ == pre.entries@.push(entry),
        grew(pre, post, ns, entry.id, entry.content@),
    ensures
        post.ns_wf(ns),
{
    let r0 = pre.registry(ns)@;
    let r1 = post.registry(ns)@;
    let n = pre.entries@.len();
    assert forall|q: int| 0 <= q < r0.len() implies #[trigger] r1[q] == r0[q] by {
        assert(r1.subrange(0, r0.len() as int)[q] == r1[q]);
    }
    assert forall|p: (i64, i64)| #[trigger] post.links(ns)@.contains(p) implies 1 <= p.0 <= post.entries@.len() && 1 <= p.1
        <= post.registry(ns)@.len() by {}
    assert forall|k: int, i: int|
        0 <= k < post.entries@.len() && 0 <= i < ns_refs(ns, post.content(k)).len()
            implies post.linked(ns, (k + 1) as i64, #[trigger] post.ref_at(ns, k, i)) by {
        if k < n {
            assert(post.entries@[k] == pre.entries@[k]);
            assert(post.ref_at(ns, k, i) == pre.ref_at(ns, k, i));
            let name = pre.ref_at(ns, k, i);
            assert(pre.linked(ns, (k + 1) as i64, name));
            let j = choose|j: int|
                0 <= j < r0.len() && #[trigger] r0[j] == name
                    && pre.links(ns)@.contains(((k + 1) as i64, (j + 1) as i64));
            assert(r1[j] == name);
            assert(post.links(ns)@.contains(((k + 1) as i64, (j + 1) as i64)));
        } else {
            assert(post.entries@[k] == entry);
            let name = post.ref_at(ns, k, i);
            assert(ns_refs(ns, entry.content@).contains(name));
            assert(r1.contains(name));
            let j = choose|j: int| 0 <= j < r1.len() && r1[j] == name;
            assert(post.links(ns)@.contains((entry.id, (j + 1) as i64)));
        }
    }
}

/// Upserts each of `names` into `reg` and links each to `entry_id`.
fn resolve(reg: &mut Registry, links: &mut LinkTable, names: &Vec<String>, entry_id: i64, now: i64)
    requires
        old(reg).wf(),
        old(links).wf(),
        old(reg)@.len() + names@.len() <= MAX_ROWS,
    ensures
        final(reg).wf(),
        final(links).wf(),
        final(reg)@.len() >= old(reg)@.len(),
        final(reg)@.subrange(0, old(reg)@.len() as int) == old(reg)@,
        forall|x: Seq<char>| #[trigger] final(reg)@.contains(x) <==> old(reg)@.contains(x) || views(names@).contains(x),
        forall|p: (i64, i64)|
            #[trigger] final(links)@.contains(p) <==> old(links)@.contains(p) || (p.0 == entry_id && 1 <= p.1 <= final(reg)@.len()
                && views(names@).contains(final(reg)@[p.1 - 1])),
        final(reg).names@.len() >= old(reg).names@.len(),
        final(reg).names@.subrange(0, old(reg).names@.len() as int) == old(reg).names@,
        old(reg).created_at@.is_prefix_of(final(reg).created_at@),
        final(links)@.len() >= old(links)@.len(),
        final(links)@.subrange(0, old(links)@.len() as int) == old(links)@,
{
    let ghost reg0 = reg@;
    let ghost links0 = links@;
    let ghost raw0 = reg.names@;
    let ghost made0 = reg.created_at@;
    let mut i: usize = 0;
    while i < names.len()
        invariant
            i <= names@.len(),
            reg.wf(),
            links.wf(),
            reg0.len() + names@.len() <= MAX_ROWS,
            reg@.len() <= reg0.len() + i,
            reg@.len() >= reg0.len(),
            reg@.subrange(0, reg0.len() as int) == reg0,
            reg.names@.len() >= raw0.len(),
            reg.names@.subrange(0, raw0.len() as int) == raw0,
            made0.is_prefix_of(reg.created_at@),
            links@.len() >= links0.len(),
            links@.subrange(0, links0.len() as int) == links0,
            forall|x: Seq<char>| #[trigger] reg@.contains(x) <==> reg0.contains(x) || views(names@).subrange(0, i as int).contains(x),
            forall|p: (i64, i64)|
                #[trigger] links@.contains(p) <==> links0.contains(p) || (p.0 == entry_id && 1 <= p.1 <= reg@.len()
                    && views(names@).subrange(0, i as int).contains(reg@[p.1 - 1])),
        decreases names@.len() - i,
    {
        let ghost reg1 = reg@;
        let ghost links1 = links@;
        let ghost raw1 = reg.names@;
        let ghost made1 = reg.created_at@;
        let id = reg.upsert(names[i].as_str(), now);
        links.link(entry_id, id);
        proof {
            assert(reg.names@.subrange(0, raw0.len() as int) =~= reg.names@.subrange(0, raw1.len() as int).subrange(0, raw0.len() as int));
            assert(reg.created_at@.subrange(0, made0.len() as int) =~= reg.created_at@.subrange(0, made1.len() as int).subrange(0, made0.len() as int));
            assert(links@.subrange(0, links0.len() as int) =~= links@.subrange(0, links1.len() as int).subrange(0, links0.len() as int));
            let name = names@[i as int]@;
            let done = views(names@).subrange(0, i as int);
            let now = views(names@).subrange(0, i + 1);
            assert(now =~= done.push(name));
            assert(reg@.subrange(0, reg0.len() as int) =~= reg0) by {
                if !reg1.contains(name) {
                    assert(reg@ == reg1.push(name));
                    assert(reg@.subrange(0, reg0.len() as int) =~= reg1.subrange(0, reg0.len() as int));
                }
            }
            assert forall|x: Seq<char>| #[trigger] reg@.contains(x) <==> reg0.contains(x) || now.contains(x) by {
                if reg1.contains(name) {
                    assert(now.contains(name) ==> reg1.contains(name));
                } else {
                    assert(reg@ == reg1.push(name));
                    if reg@.contains(x) && x != name {
                        let j = choose|j: int| 0 <= j < reg@.len() && reg@[j] == x;
                        assert(reg1[j] == x);
                    }
                    if reg1.contains(x) {
                        let j = choose|j: int| 0 <= j < reg1.len() && reg1[j] == x;
                        assert(reg@[j] == x);
                    }
                    assert(reg@[reg1.len() as int] == name);
                }
                if now.contains(x) && x != name {
                    let j = choose|j: int| 0 <= j < now.len() && now[j] == x;
                    assert(done[j] == x);
                }
                if done.contains(x) {
                    let j = choose|j: int| 0 <= j < done.len() && done[j] == x;
                    assert(now[j] == x);
                }
                assert(now[i as int] == name);
            }
            assert(now[i as int] == name);
            assert(reg@[id - 1] == name);
            assert forall|p: (i64, i64)| links1.contains(p) implies links@.contains(p) by {
                if !links1.contains((entry_id, id)) {
                    assert(links@ == links1.push((entry_id, id)));
                    let j = choose|j: int| 0 <= j < links1.len() && links1[j] == p;
                    assert(links@[j] == p);
                }
            }
            assert(links@.contains((entry_id, id))) by {
                if !links1.contains((entry_id, id)) {
                    assert(links@.last() == (entry_id, id));
                }
            }
            assert forall|q: int| 0 <= q < reg1.len() implies #[trigger] reg@[q] == reg1[q] by {
                if !reg1.contains(name) {
                    assert(reg@ == reg1.push(name));
                }
            }
            assert forall|q: int| reg1.len() <= q < reg@.len() implies #[trigger] reg@[q] == name && q + 1 == id by {
                if reg1.contains(name) {
                } else {
                    assert(reg@ == reg1.push(name));
                }
            }
            assert forall|p: (i64, i64)|
                #[trigger] links@.contains(p) <==> links0.contains(p) || (p.0 == entry_id && 1 <= p.1 <= reg@.len()
                    && now.contains(reg@[p.1 - 1])) by {
                if links@.contains(p) {
                    if links1.contains(p) {
                        if !links0.contains(p) {
                            let x = reg1[p.1 - 1];
                            assert(done.contains(x));
                            let j = choose|j: int| 0 <= j < done.len() && done[j] == x;
                            assert(now[j] == x);
                        }
                    } else {
                        if !links1.contains((entry_id, id)) {
                            assert(links@ == links1.push((entry_id, id)));
                            let j = choose|j: int| 0 <= j < links@.len() && links@[j] == p;
                            assert(p == (entry_id, id));
                        }
                    }
                }
                if links0.contains(p) {
                    assert(links1.contains(p));
                }
                if p.0 == entry_id && 1 <= p.1 <= reg@.len() && now.contains(reg@[p.1 - 1]) {
                    let x = reg@[p.1 - 1];
                    if x == name {
                        if p.1 != id {
                            assert(reg@[p.1 - 1] == reg@[id - 1]);
                        }
                    } else {
                        let j = choose|j: int| 0 <= j < now.len() && now[j] == x;
                        assert(done[j] == x);
                        assert(done.contains(x));
                        if p.1 <= reg1.len() {
                            assert(links1.contains(p));
                        }
                    }
                }
            }
        }
        i = i + 1;
    }
    proof {
        assert(views(names@).subrange(0, names@.len() as int) =~= views(names@));
        assert(raw0.len() == reg0.len());
    }
}

/// Each name that an entry references has exactly one entity in its
/// namespace, and exactly one link joins the entry to that entity.
pub proof fn lemma_reference_stored_once(core: Core, ns: Namespace, k: int, name: Seq<char>)
    requires
        core.wf(),
        0 <= k < core.entries@.len(),
        ns_refs(ns, core.content(k)).contains(name),
    ensures
        exists|j: int|
            0 <= j < core.registry(ns)@.len() && core.registry(ns)@[j] == name && core.links(ns)@.contains(
                ((k + 1) as i64, (j + 1) as i64),
            ) && (forall|j2: int|
                0 <= j2 < core.registry(ns)@.len() && #[trigger] core.registry(ns)@[j2] == name ==> j2 == j)
                && (forall|a: int, b: int|
                0 <= a < core.links(ns)@.len() && 0 <= b < core.links(ns)@.len()
                    && #[trigger] core.links(ns)@[a] == ((k + 1) as i64, (j + 1) as i64)
                    && #[trigger] core.links(ns)@[b] == ((k + 1) as i64, (j + 1) as i64) ==> a == b),
{
    assert(core.ns_wf(ns)) by {
        match ns {
            Namespace::Person => {},
            Namespace::Project => {},
            Namespace::Tag => {},
        }
    }
    let i = choose|i: int| 0 <= i < ns_refs(ns, core.content(k)).len() && ns_refs(ns, core.content(k))[i] == name;
    assert(core.ref_at(ns, k, i) == name);
    assert(core.linked(ns, (k + 1) as i64, name));
    let j = choose|j: int|
        0 <= j < core.registry(ns)@.len() && #[trigger] core.registry(ns)@[j] == name
            && core.links(ns)@.contains(((k + 1) as i64, (j + 1) as i64));
    assert(core.registry(ns)@[j] == name);
}

/// Two entries that reference the same name in a namespace are linked to
/// one and the same entity.
pub proof fn lemma_same_name_same_entity(core: Core, ns: Namespace, k1: int, k2: int, name: Seq<char>)
    requires
        core.wf(),
        0 <= k1 < core.entries@.len(),
        0 <= k2 < core.entries@.len(),
        ns_refs(ns, core.content(k1)).contains(name),
        ns_refs(ns, core.content(k2)).contains(name),
    ensures
        exists|j: int|
            0 <= j < core.registry(ns)@.len() && core.registry(ns)@[j] == name
                && core.links(ns)@.contains(((k1 + 1) as i64, (j + 1) as i64))
                && core.links(ns)@.contains(((k2 + 1) as i64, (j + 1) as i64)),
{
    lemma_reference_stored_once(core, ns, k1, name);
    lemma_reference_stored_once(core, ns, k2, name);
    let j1 = choose|j: int|
        0 <= j < core.registry(ns)@.len() && core.registry(ns)@[j] == name && core.links(ns)@.contains(
            ((k1 + 1) as i64, (j + 1) as i64),
        ) && (forall|j2: int|
            0 <= j2 < core.registry(ns)@.len() && #[trigger] core.registry(ns)@[j2] == name ==> j2 == j)
            && (forall|a: int, b: int|
            0 <= a < core.links(ns)@.len() && 0 <= b < core.links(ns)@.len()
                && #[trigger] core.links(ns)@[a] == ((k1 + 1) as i64, (j + 1) as i64)
                && #[trigger] core.links(ns)@[b] == ((k1 + 1) as i64, (j + 1) as i64) ==> a == b);
    let j2 = choose|j: int|
        0 <= j < core.registry(ns)@.len() && core.registry(ns)@[j] == name && core.links(ns)@.contains(
            ((k2 + 1) as i64, (j + 1) as i64),
        ) && (forall|j3: int|
            0 <= j3 < core.registry(ns)@.len() && #[trigger] core.registry(ns)@[j3] == name ==> j3 == j)
            && (forall|a: int, b: int|
            0 <= a < core.links(ns)@.len() && 0 <= b < core.links(ns)@.len()
                && #[trigger] core.links(ns)@[a] == ((k2 + 1) as i64, (j + 1) as i64)
                && #[trigger] core.links(ns)@[b] == ((k2 + 1) as i64, (j + 1) as i64) ==> a == b);
    assert(j1 == j2);
}

/// The index holds a record for an entry exactly when the store holds
/// the entry, and the record is made from the entry's content.
pub proof fn lemma_index_matches_entries(core: Core, id: i64)
    requires
        core.wf(),
    ensures
        ids(core.index@).contains(id) <==> 1 <= id <= core.entries@.len(),
        1 <= id <= core.entries@.len() ==> core.index@[id - 1] == (id, tokens(core.content(id - 1))),
{
    if ids(core.index@).contains(id) {
        let j = choose|j: int| 0 <= j < ids(core.index@).len() && ids(core.index@)[j] == id;
        assert(core.index@[j] == ((j + 1) as i64, tokens(core.content(j))));
    }
    if 1 <= id <= core.entries@.len() {
        assert(core.index@[id - 1] == (id, tokens(core.content(id - 1))));
        assert(ids(core.index@)[id - 1] == id);
    }
}

} // verus!
