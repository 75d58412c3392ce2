//! Filtering committed entries by date, text and linked entities.
use vstd::prelude::*;
use crate::date::Date;
use crate::index::{hits, lemma_tokens_of_words, tokens, words};
use crate::journal::{Core, Entry, Error, Namespace, Step};
use crate::rank::{rank, ranked, ranks_above};

verus! {

/// Conjunctive predicates over entries; an absent one restricts nothing.
pub struct Filter {
    pub from: Option<Date>,
    pub to: Option<Date>,
    pub text: Option<String>,
    pub person: Option<String>,
    pub project: Option<String>,
    pub tag: Option<String>,
}

impl Filter {
    /// A filter that keeps every entry.
    pub fn any() -> (f: Filter)
        ensures
            f.from is None && f.to is None && f.text is None,
            f.person is None && f.project is None && f.tag is None,
    {
        Filter { from: None, to: None, text: None, person: None, project: None, tag: None }
    }
}

/// Entry `k + 1` is linked in `ns` to the entity `name`, if a name is given.
pub open spec fn names_ok(core: Core, ns: Namespace, k: int, name: Option<String>) -> bool {
    match name {
        None => true,
        Some(n) => core.linked(ns, (k + 1) as i64, n@),
    }
}

/// The entry at position `k` meets every predicate of `f`.
pub open spec fn selects(core: Core, f: Filter, k: int) -> bool {
    let e = core.entries@[k];
    &&& (f.from matches Some(d) ==> d.key() <= e.date.key())
    &&& (f.to matches Some(d) ==> e.date.key() <= d.key())
    &&& (f.text matches Some(t) ==> hits(core.index@, tokens(t@)).contains(e.id))
    &&& names_ok(core, Namespace::Person, k, f.person)
    &&& names_ok(core, Namespace::Project, k, f.project)
    &&& names_ok(core, Namespace::Tag, k, f.tag)
}

/// Some entry of `v` has identifier `id`.
pub open spec fn lists(v: Seq<Entry>, id: int) -> bool {
    exists|i: int| 0 <= i < v.len() && v[i].id == id
}

/// Whether `v` holds `x`.
fn holds(v: &Vec<i64>, x: i64) -> (r: bool)
    ensures
        r == v@.contains(x),
{
    let mut k: usize = 0;
    while k < v.len()
        invariant
            k <= v@.len(),
            forall|j: int| 0 <= j < k ==> v@[j] != x,
        decreases v@.len() - k,
    {
        if v[k] == x {
            return true;
        }
        k = k + 1;
    }
    false
}

impl Core {
    /// The entity of `ns` named by `name`: `None` when no name is given,
    /// `Some(None)` when no entity has that name.
    fn wanted(&self, ns: Namespace, name: &Option<String>) -> (r: Option<Option<i64>>)
        requires
            self.wf(),
        ensures
            name is None <==> r is None,
            name matches Some(n) ==> match r->0 {
                Some(id) => 1 <= id <= self.registry(ns)@.len() && self.registry(ns)@[id - 1] == n@,
                None => !self.registry(ns)@.contains(n@),
            },
    {
        match name {
            None => None,
            Some(n) => Some(self.entity_id(ns, n.as_str())),
        }
    }

    /// Whether entry `k + 1` meets the entity predicate `want` of `ns`.
    fn link_ok(&self, ns: Namespace, k: usize, want: Option<Option<i64>>, name: &Option<String>) -> (r: bool)
        requires
            self.wf(),
            k < self.entries@.len(),
            name is None <==> want is None,
            name matches Some(n) ==> match want->0 {
                Some(id) => 1 <= id <= self.registry(ns)@.len() && self.registry(ns)@[id - 1] == n@,
                None => !self.registry(ns)@.contains(n@),
            },
        ensures
            r == names_ok(*self, ns, k as int, *name),
    {
        proof {
            assert(self.registry(ns).wf()) by {
                match ns {
                    Namespace::Person => {},
                    Namespace::Project => {},
                    Namespace::Tag => {},
                }
            }
        }
        match want {
            None => true,
            Some(None) => {
                proof {
                    let n = name->0@;
                    if self.linked(ns, (k + 1) as i64, n) {
                        let j = choose|j: int|
                            0 <= j < self.registry(ns)@.len() && #[trigger] self.registry(ns)@[j] == n
                                && self.links(ns)@.contains(((k + 1) as i64, (j + 1) as i64));
                        assert(self.registry(ns)@.contains(n));
                    }
                }
                false
            },
            Some(Some(id)) => {
                let r = match ns {
                    Namespace::Person => self.entry_people.contains((k + 1) as i64, id),
                    Namespace::Project => self.entry_projects.contains((k + 1) as i64, id),
                    Namespace::Tag => self.entry_tags.contains((k + 1) as i64, id),
                };
                proof {
                    let n = name->0@;
                    if self.linked(ns, (k + 1) as i64, n) {
                        let j = choose|j: int|
                            0 <= j < self.registry(ns)@.len() && #[trigger] self.registry(ns)@[j] == n
                                && self.links(ns)@.contains(((k + 1) as i64, (j + 1) as i64));
                        assert(j == id - 1);
                    }
                    if r {
                        assert(self.registry(ns)@[id - 1] == n);
                    }
                }
                r
            },
        }
    }

    /// The entries that meet every predicate of `f`, latest date first and,
    /// within a date, highest identifier first. Fails only when a text
    /// predicate is given and the stemmer fails.
    pub fn filter(&self, f: &Filter) -> (r: Result<Vec<Entry>, Error>)
        requires
            self.wf(),
            f.from matches Some(d) ==> d.wf(),
            f.to matches Some(d) ==> d.wf(),
        ensures
            f.text is None ==> r is Ok,
            f.text matches Some(t) && words(t@).len() == 0 ==> (r matches Ok(v) && v@.len() == 0),
            r is Err ==> r == Err::<Vec<Entry>, Error>(Error::Storage(Step::Index)),
            r matches Ok(v) ==> forall|i: int| 0 <= i < v@.len() ==> 1 <= #[trigger] v@[i].id <= self.entries@.len() && v@[i]
                == self.entries@[v@[i].id - 1] && selects(*self, *f, v@[i].id - 1),
            r matches Ok(v) ==> forall|k: int| 0 <= k < self.entries@.len() && #[trigger] selects(*self, *f, k) ==> lists(v@, k + 1),
            r matches Ok(v) ==> forall|i: int, j: int|
                0 <= i < j < v@.len() ==> #[trigger] v@[i].date.key() > #[trigger] v@[j].date.key() || (
                v@[i].date.key() == v@[j].date.key() && v@[i].id > v@[j].id),
    {
        let text_hits = match &f.text {
            Some(t) => match self.search(t.as_str()) {
                Some(h) => Some(h),
                None => {
                    return Err(Error::Storage(Step::Index));
                },
            },
            None => None,
        };
        let want_person = self.wanted(Namespace::Person, &f.person);
        let want_project = self.wanted(Namespace::Project, &f.project);
        let want_tag = self.wanted(Namespace::Tag, &f.tag);
        let from_key: Option<i64> = match f.from {
            Some(d) => Some(d.sort_key()),
            None => None,
        };
        let to_key: Option<i64> = match f.to {
            Some(d) => Some(d.sort_key()),
            None => None,
        };
        let mut found: Vec<(i64, i64)> = Vec::new();
        let mut k: usize = 0;
        while k < self.entries.len()
            invariant
                self.wf(),
                k <= self.entries@.len(),
                f.from matches Some(d) ==> from_key == Some(d.key() as i64),
                f.from is None ==> from_key is None,
                f.to matches Some(d) ==> to_key == Some(d.key() as i64),
                f.to is None ==> to_key is None,
                f.text is None <==> text_hits is None,
                f.text matches Some(t) ==> text_hits->0@.to_set() == hits(self.index@, tokens(t@)),
                f.person is None <==> want_person is None,
                f.person matches Some(n) ==> match want_person->0 {
                    Some(id) => 1 <= id <= self.registry(Namespace::Person)@.len() && self.registry(Namespace::Person)@[id - 1] == n@,
                    None => !self.registry(Namespace::Person)@.contains(n@),
                },
                f.project is None <==> want_project is None,
                f.project matches Some(n) ==> match want_project->0 {
                    Some(id) => 1 <= id <= self.registry(Namespace::Project)@.len() && self.registry(Namespace::Project)@[id - 1] == n@,
                    None => !self.registry(Namespace::Project)@.contains(n@),
                },
                f.tag is None <==> want_tag is None,
                f.tag matches Some(n) ==> match want_tag->0 {
                    Some(id) => 1 <= id <= self.registry(Namespace::Tag)@.len() && self.registry(Namespace::Tag)@[id - 1] == n@,
                    None => !self.registry(Namespace::Tag)@.contains(n@),
                },
                forall|p: (i64, i64)|
                    #[trigger] found@.contains(p) <==> 1 <= p.1 <= k && selects(*self, *f, p.1 - 1) && p.0
                        == self.entries@[p.1 - 1].date.key(),
                forall|a: int| 0 <= a < found@.len() ==> (#[trigger] found@[a]).1 <= k,
                found@.no_duplicates(),
            decreases self.entries@.len() - k,
        {
            let e = &self.entries[k];
            let key = e.date.sort_key();
            let date_ok = match from_key {
                Some(lo) => lo <= key,
                None => true,
            } && match to_key {
                Some(hi) => key <= hi,
                None => true,
            };
            let text_ok = match &text_hits {
                Some(h) => holds(h, e.id),
                None => true,
            };
            let people_ok = self.link_ok(Namespace::Person, k, want_person, &f.person);
            let projects_ok = self.link_ok(Namespace::Project, k, want_project, &f.project);
            let tags_ok = self.link_ok(Namespace::Tag, k, want_tag, &f.tag);
            let ghost prev = found@;
            if date_ok && text_ok && people_ok && projects_ok && tags_ok {
                found.push((key, e.id));
            }
            proof {
                assert(self.entries@[k as int].id == k + 1);
                if f.text is Some {
                    assert(text_hits->0@.contains(e.id) == text_hits->0@.to_set().contains(e.id));
                }
                assert(date_ok && text_ok && people_ok && projects_ok && tags_ok <==> selects(*self, *f, k as int));
                assert forall|p: (i64, i64)|
                    #[trigger] found@.contains(p) <==> 1 <= p.1 <= k + 1 && selects(*self, *f, p.1 - 1)
                        && p.0 == self.entries@[p.1 - 1].date.key() by {
                    if found@.contains(p) && !prev.contains(p) {
                        let a = choose|a: int| 0 <= a < found@.len() && found@[a] == p;
                        assert(a == prev.len());
                    }
                    if prev.contains(p) {
                        let a = choose|a: int| 0 <= a < prev.len() && prev[a] == p;
                        assert(found@[a] == p);
                    }
                    if p.1 == k + 1 && selects(*self, *f, p.1 - 1) && p.0 == self.entries@[p.1 - 1].date.key() {
                        assert(found@[prev.len() as int] == p);
                    }
                }
                assert forall|a: int, b: int|
                    0 <= a < found@.len() && 0 <= b < found@.len() && a != b implies found@[a] != found@[b] by {
                    if a == prev.len() {
                        assert(prev[b].1 <= k);
                    } else if b == prev.len() {
                        assert(prev[a].1 <= k);
                    }
                }
            }
            k = k + 1;
        }
        let ordered = rank(&found);
        let mut out: Vec<Entry> = Vec::new();
        let mut i: usize = 0;
        while i < ordered.len()
            invariant
                self.wf(),
                i <= ordered@.len(),
                ranked(ordered@),
                ordered@.no_duplicates(),
                forall|p: (i64, i64)| ordered@.contains(p) <==> found@.contains(p),
                forall|p: (i64, i64)|
                    #[trigger] found@.contains(p) <==> 1 <= p.1 <= self.entries@.len() && selects(*self, *f, p.1 - 1) && p.0
                        == self.entries@[p.1 - 1].date.key(),
                out@.len() == i,
                forall|a: int| 0 <= a < i ==> #[trigger] out@[a] == self.entries@[ordered@[a].1 - 1]
                    && out@[a].id == ordered@[a].1 && out@[a].date.key() == ordered@[a].0,
            decreases ordered@.len() - i,
        {
            let p = ordered[i];
            proof {
                assert(ordered@.contains(p));
            }
            let e = self.entries[(p.1 - 1) as usize].duplicate();
            out.push(e);
            i = i + 1;
        }
        proof {
            assert forall|i: int| 0 <= i < out@.len() implies 1 <= #[trigger] out@[i].id <= self.entries@.len() && out@[i]
                == self.entries@[out@[i].id - 1] && selects(*self, *f, out@[i].id - 1) by {
                assert(ordered@.contains(ordered@[i]));
            }
            assert forall|k: int| 0 <= k < self.entries@.len() && #[trigger] selects(*self, *f, k) implies lists(out@, k + 1) by {
                let p = (self.entries@[k].date.key() as i64, (k + 1) as i64);
                assert(self.entries@[k].id == k + 1);
                assert(found@.contains(p));
                assert(ordered@.contains(p));
                let i = choose|i: int| 0 <= i < ordered@.len() && ordered@[i] == p;
                assert(out@[i].id == k + 1);
            }
            assert forall|i: int, j: int|
                0 <= i < j < out@.len() implies #[trigger] out@[i].date.key() > #[trigger] out@[j].date.key() || (
                out@[i].date.key() == out@[j].date.key() && out@[i].id > out@[j].id) by {
                assert(!ranks_above(ordered@[j], ordered@[i]));
                assert(ordered@[i] != ordered@[j]);
                assert(out@[i] == self.entries@[ordered@[i].1 - 1]);
                assert(out@[j] == self.entries@[ordered@[j].1 - 1]);
                assert(ordered@.contains(ordered@[i]));
                assert(ordered@.contains(ordered@[j]));
            }
        }
        proof {
            if f.text is Some && words(f.text->0@).len() == 0 {
                let t = f.text->0;
                lemma_tokens_of_words(t@, 0);
                assert(tokens(t@).len() == 0);
                if out@.len() > 0 {
                    let e = out@[0];
                    assert(selects(*self, *f, e.id - 1));
                    assert(hits(self.index@, tokens(t@)).contains(e.id));
                }
            }
        }
        Ok(out)
    }
}

} // verus!
