//! The full-text index: lower-cased, stemmed word tokens of each entry's
//! content, searched by conjunctive token match and ranked by term
//! frequency.
use vstd::prelude::*;
use crate::chars::{word_char, word_end, lemma_word_end_bounds, scan_word};
use crate::rank::{rank, ranked, ranks_above};
use crate::sigil::views;

verus! {

/// The lower-case form of a text.
pub uninterp spec fn lower_of(s: Seq<char>) -> Seq<char>;

/// Relies on str::to_lowercase: the lower-case mapping of every character.
#[verifier::external_body]
fn lowercase(s: &str) -> (r: String)
    ensures
        r@ == lower_of(s@),
{
    s.to_lowercase()
}

/// The stems of a word: the terms that SQLite's FTS5 `porter unicode61`
/// tokenizer makes of it, in order.
pub uninterp spec fn stems_of(w: Seq<char>) -> Seq<Seq<char>>;

/// Relies on rusqlite with its bundled SQLite: an in-memory FTS5 table
/// with the `porter unicode61` tokenizer holds `w`, and its `fts5vocab`
/// instance table lists the terms by position. `None` when SQLite fails.
#[verifier::external_body]
fn porter_stems(w: &str) -> (r: Option<Vec<String>>)
    ensures
        r matches Some(v) ==> views(v@) == stems_of(w@),
{
    let conn = rusqlite::Connection::open_in_memory().ok()?;
    conn.execute_batch(
        "CREATE VIRTUAL TABLE t USING fts5(w, tokenize = 'porter unicode61');
         CREATE VIRTUAL TABLE v USING fts5vocab(t, 'instance');",
    ).ok()?;
    conn.execute("INSERT INTO t(w) VALUES (?1)", [w]).ok()?;
    let mut stmt = conn.prepare("SELECT term FROM v ORDER BY offset").ok()?;
    let rows = stmt.query_map([], |row| row.get::<_, String>(0)).ok()?;
    let terms = rows.collect::<Result<Vec<String>, _>>().ok();
    terms
}

/// The index terms of a word: the stems of its lower-case form.
pub open spec fn terms_of(w: Seq<char>) -> Seq<Seq<char>> {
    stems_of(lower_of(w))
}

/// The maximal runs of word characters of `s` from position `i` on.
pub open spec fn runs_from(s: Seq<char>, i: int) -> Seq<Seq<char>>
    decreases s.len() - i,
    via runs_from_decreases
{
    if i < 0 || i >= s.len() {
        seq![]
    } else if word_char(s[i]) {
        seq![s.subrange(i, word_end(s, i))] + runs_from(s, word_end(s, i))
    } else {
        runs_from(s, i + 1)
    }
}

#[via_fn]
proof fn runs_from_decreases(s: Seq<char>, i: int) {
    if 0 <= i < s.len() {
        lemma_word_end_bounds(s, i + 1);
    }
}

/// The words of `s`, in order.
pub open spec fn words(s: Seq<char>) -> Seq<Seq<char>> {
    runs_from(s, 0)
}

/// The terms of the words of `s` from position `i` on, in order.
pub open spec fn tokens_from(s: Seq<char>, i: int) -> Seq<Seq<char>>
    decreases s.len() - i,
    via tokens_from_decreases
{
    if i < 0 || i >= s.len() {
        seq![]
    } else if word_char(s[i]) {
        terms_of(s.subrange(i, word_end(s, i))) + tokens_from(s, word_end(s, i))
    } else {
        tokens_from(s, i + 1)
    }
}

#[via_fn]
proof fn tokens_from_decreases(s: Seq<char>, i: int) {
    if 0 <= i < s.len() {
        lemma_word_end_bounds(s, i + 1);
    }
}

/// The tokens of `s`: the terms of its words, in order.
pub open spec fn tokens(s: Seq<char>) -> Seq<Seq<char>> {
    tokens_from(s, 0)
}

/// Text without words has no tokens, and every term of a word is a token.
pub proof fn lemma_tokens_of_words(s: Seq<char>, i: int)
    requires
        0 <= i <= s.len(),
    ensures
        runs_from(s, i).len() == 0 ==> tokens_from(s, i).len() == 0,
        forall|w: Seq<char>, t: Seq<char>|
            runs_from(s, i).contains(w) && #[trigger] terms_of(w).contains(t) ==> tokens_from(s, i).contains(t),
    decreases s.len() - i,
{
    if i < s.len() {
        if word_char(s[i]) {
            lemma_word_end_bounds(s, i);
            lemma_word_end_bounds(s, i + 1);
            let e = word_end(s, i);
            lemma_tokens_of_words(s, e);
            let head = s.subrange(i, e);
            assert forall|w: Seq<char>, t: Seq<char>|
                runs_from(s, i).contains(w) && #[trigger] terms_of(w).contains(t) implies tokens_from(s, i).contains(t) by {
                let rest = runs_from(s, e);
                assert(runs_from(s, i) == seq![head] + rest);
                let a = choose|a: int| 0 <= a < runs_from(s, i).len() && runs_from(s, i)[a] == w;
                let b = choose|b: int| 0 <= b < terms_of(w).len() && terms_of(w)[b] == t;
                if a == 0 {
                    assert(tokens_from(s, i)[b] == t);
                } else {
                    assert(rest[a - 1] == w);
                    assert(rest.contains(w));
                    assert(tokens_from(s, e).contains(t));
                    let c = choose|c: int| 0 <= c < tokens_from(s, e).len() && tokens_from(s, e)[c] == t;
                    assert(tokens_from(s, i)[terms_of(head).len() + c] == t);
                }
            }
        } else {
            lemma_tokens_of_words(s, i + 1);
        }
    }
}

/// How often `t` occurs in `toks`.
pub open spec fn occurrences(toks: Seq<Seq<char>>, t: Seq<char>) -> int
    decreases toks.len(),
{
    if toks.len() == 0 {
        0
    } else {
        occurrences(toks.drop_last(), t) + if toks.last() == t {
            1int
        } else {
            0int
        }
    }
}

/// Adds `b` to `a`, holding at the largest `i64`.
pub open spec fn capped_add(a: int, b: int) -> int {
    if a + b > i64::MAX {
        i64::MAX as int
    } else {
        a + b
    }
}

/// The relevance of a record with tokens `toks` to the query tokens `q`:
/// the occurrences of every query token, summed.
pub open spec fn score(toks: Seq<Seq<char>>, q: Seq<Seq<char>>) -> int
    decreases q.len(),
{
    if q.len() == 0 {
        0
    } else {
        capped_add(score(toks, q.drop_last()), occurrences(toks, q.last()))
    }
}

/// A record with tokens `toks` answers the query tokens `q`: there is at
/// least one, and each occurs in the record.
pub open spec fn answers(toks: Seq<Seq<char>>, q: Seq<Seq<char>>) -> bool {
    q.len() > 0 && forall|k: int| 0 <= k < q.len() ==> toks.contains(#[trigger] q[k])
}

/// Entry `a` comes before entry `b` in an answer to `q`: a higher score,
/// or an equal score and a higher identifier.
pub open spec fn outranks(ix: Seq<(i64, Seq<Seq<char>>)>, q: Seq<Seq<char>>, a: i64, b: i64) -> bool {
    let sa = score(record_of(ix, a)->0, q);
    let sb = score(record_of(ix, b)->0, q);
    sa > sb || (sa == sb && a > b)
}

/// `r` lists entries best first.
pub open spec fn by_relevance(ix: Seq<(i64, Seq<Seq<char>>)>, q: Seq<Seq<char>>, r: Seq<i64>) -> bool {
    forall|i: int, j: int| 0 <= i < j < r.len() ==> #[trigger] outranks(ix, q, r[i], r[j])
}

/// Splits `text` into its tokens; `None` when the stemmer fails.
pub fn tokenize(text: &str) -> (r: Option<Vec<String>>)
    ensures
        r matches Some(v) ==> views(v@) == tokens(text@),
        words(text@).len() == 0 ==> (r matches Some(v) && v@.len() == 0),
{
    let len = text.unicode_len();
    let mut out: Vec<String> = Vec::new();
    let mut i: usize = 0;
    while i < len
        invariant
            len == text@.len(),
            i <= len,
            views(out@) + tokens_from(text@, i as int) == tokens(text@),
            runs_from(text@, i as int).len() > 0 ==> words(text@).len() > 0,
            words(text@).len() == 0 ==> out@.len() == 0,
        decreases len - i,
    {
        let e = scan_word(text, len, i);
        proof {
            lemma_word_end_bounds(text@, i as int);
        }
        if e > i {
            proof {
                assert(word_char(text@[i as int]));
                assert(runs_from(text@, i as int).len() > 0);
            }
            let lower = lowercase(text.substring_char(i, e));
            let mut terms = match porter_stems(lower.as_str()) {
                Some(t) => t,
                None => {
                    return None;
                },
            };
            let ghost before = views(out@);
            let ghost added = views(terms@);
            out.append(&mut terms);
            proof {
                assert(views(out@) =~= before + added);
                let head = text@.subrange(i as int, e as int);
                assert(tokens_from(text@, i as int) == terms_of(head) + tokens_from(text@, e as int));
                assert(runs_from(text@, i as int) == seq![head] + runs_from(text@, e as int));
                assert(before + tokens_from(text@, i as int) =~= views(out@) + tokens_from(text@, e as int));
            }
            i = e;
        } else {
            i = i + 1;
        }
    }
    proof {
        assert(tokens_from(text@, len as int) =~= Seq::<Seq<char>>::empty());
        assert(views(out@) + Seq::<Seq<char>>::empty() =~= views(out@));
    }
    Some(out)
}

/// The index record of one entry.
pub struct IndexRecord {
    pub entry_id: i64,
    pub tokens: Vec<String>,
}

pub struct SearchIndex {
    pub records: Vec<IndexRecord>,
}

impl View for SearchIndex {
    type V = Seq<(i64, Seq<Seq<char>>)>;

    open spec fn view(&self) -> Seq<(i64, Seq<Seq<char>>)> {
        self.records@.map_values(|r: IndexRecord| (r.entry_id, views(r.tokens@)))
    }
}

/// The identifiers of the records of `ix`.
pub open spec fn ids(ix: Seq<(i64, Seq<Seq<char>>)>) -> Seq<i64> {
    ix.map_values(|r: (i64, Seq<Seq<char>>)| r.0)
}

/// The identifiers of the records of `ix` that answer `q`.
pub open spec fn hits(ix: Seq<(i64, Seq<Seq<char>>)>, q: Seq<Seq<char>>) -> Set<i64> {
    Set::new(|id: i64| exists|k: int| 0 <= k < ix.len() && #[trigger] ix[k].0 == id && answers(ix[k].1, q))
}

/// The tokens recorded for `id` in `ix`, if any.
pub open spec fn record_of(ix: Seq<(i64, Seq<Seq<char>>)>, id: i64) -> Option<Seq<Seq<char>>> {
    if exists|k: int| 0 <= k < ix.len() && #[trigger] ix[k].0 == id {
        let k = choose|k: int| 0 <= k < ix.len() && #[trigger] ix[k].0 == id;
        Some(ix[k].1)
    } else {
        None
    }
}

/// Counts how often `t` occurs in `toks`.
fn count(toks: &Vec<String>, t: &String) -> (n: usize)
    ensures
        n == occurrences(views(toks@), t@),
{
    let mut n: usize = 0;
    let mut k: usize = 0;
    while k < toks.len()
        invariant
            k <= toks@.len(),
            n == occurrences(views(toks@).subrange(0, k as int), t@),
            0 <= n <= k,
        decreases toks@.len() - k,
    {
        proof {
            assert(views(toks@).subrange(0, k + 1).drop_last() =~= views(toks@).subrange(0, k as int));
        }
        if toks[k] == *t {
            n = n + 1;
        }
        k = k + 1;
    }
    assert(views(toks@).subrange(0, k as int) =~= views(toks@));
    n
}

impl SearchIndex {
    /// No entry has two records.
    pub open spec fn wf(&self) -> bool {
        ids(self@).no_duplicates()
    }

    pub fn new() -> (r: SearchIndex)
        ensures
            r.wf(),
            r@ == Seq::<(i64, Seq<Seq<char>>)>::empty(),
    {
        let r = SearchIndex { records: Vec::new() };
        assert(r@ =~= Seq::<(i64, Seq<Seq<char>>)>::empty());
        assert(ids(r@) =~= Seq::<i64>::empty());
        r
    }

    pub fn len(&self) -> (n: usize)
        ensures
            n == self@.len(),
    {
        self.records.len()
    }

    /// Stores `toks` as the record of `entry_id`, in place of any earlier
    /// record of it.
    pub fn index_tokens(&mut self, entry_id: i64, toks: Vec<String>)
        requires
            old(self).wf(),
        ensures
            final(self).wf(),
            !ids(old(self)@).contains(entry_id) ==> final(self)@ == old(self)@.push(
                (entry_id, views(toks@)),
            ),
            !ids(old(self)@).contains(entry_id) ==> final(self).records@.len() == old(self).records@.len() + 1
                && final(self).records@.subrange(0, old(self).records@.len() as int) == old(self).records@,
            forall|k: int|
                0 <= k < old(self)@.len() && old(self)@[k].0 == entry_id ==> final(self)@
                    == old(self)@.update(k, (entry_id, views(toks@))),
    {
        let ghost before = self@;
        let ghost old_records = self.records@;
        let mut k: usize = 0;
        while k < self.records.len()
            invariant
                self@ == before,
                before == old(self)@,
                ids(before).no_duplicates(),
                self.records@ == old_records,
                before == old_records.map_values(|r: IndexRecord| (r.entry_id, views(r.tokens@))),
                k <= before.len(),
                forall|j: int| 0 <= j < k ==> before[j].0 != entry_id,
            decreases before.len() - k,
        {
            if self.records[k].entry_id == entry_id {
                let ghost tv = views(toks@);
                let rec = IndexRecord { entry_id, tokens: toks };
                self.records.set(k, rec);
                proof {
                    assert(self.records@ == old_records.update(k as int, rec));
                    assert(self@[k as int] == (entry_id, views(toks@)));
                    assert(ids(before)[k as int] == entry_id);
                    assert(self@ =~= before.update(k as int, (entry_id, views(toks@))));
                    assert(ids(self@) =~= ids(before));
                    assert forall|j: int|
                        0 <= j < before.len() && before[j].0 == entry_id implies self@
                        == before.update(j, (entry_id, views(toks@))) by {
                        if j != k {
                            assert(ids(before)[j] == before[j].0);
                            assert(ids(before)[k as int] == before[k as int].0);
                        }
                    }
                }
                return;
            }
            k = k + 1;
        }
        self.records.push(IndexRecord { entry_id, tokens: toks });
        proof {
            assert(self.records@ == old_records.push(IndexRecord { entry_id, tokens: toks }));
            assert(self.records@.subrange(0, old_records.len() as int) =~= old_records);
            assert(self@ =~= before.push((entry_id, views(toks@))));
            assert(ids(self@) =~= ids(before).push(entry_id));
            assert(!ids(before).contains(entry_id)) by {
                if ids(before).contains(entry_id) {
                    let j = choose|j: int| 0 <= j < ids(before).len() && ids(before)[j] == entry_id;
                    assert(before[j].0 == entry_id);
                }
            }
            assert forall|i: int, j: int|
                0 <= i < ids(self@).len() && 0 <= j < ids(self@).len() && i != j implies ids(
                self@,
            )[i] != ids(self@)[j] by {
                if j == before.len() as int && i < before.len() {
                    assert(ids(before).contains(ids(before)[i]));
                } else if i == before.len() as int && j < before.len() {
                    assert(ids(before).contains(ids(before)[j]));
                }
            }
        }
    }

    /// Stores the tokens of `content` as the record of `entry_id`, in place
    /// of any earlier record of it; on `false` the stemmer failed and
    /// nothing changed.
    pub fn index(&mut self, entry_id: i64, content: &str) -> (ok: bool)
        requires
            old(self).wf(),
        ensures
            final(self).wf(),
            !ok ==> final(self).records@ == old(self).records@,
            words(content@).len() == 0 ==> ok,
            ok && !ids(old(self)@).contains(entry_id) ==> final(self)@ == old(self)@.push(
                (entry_id, tokens(content@)),
            ),
            ok && !ids(old(self)@).contains(entry_id) ==> final(self).records@.len() == old(self).records@.len() + 1
                && final(self).records@.subrange(0, old(self).records@.len() as int) == old(self).records@,
            forall|k: int|
                ok && 0 <= k < old(self)@.len() && old(self)@[k].0 == entry_id ==> final(self)@
                    == old(self)@.update(k, (entry_id, tokens(content@))),
    {
        match tokenize(content) {
            Some(toks) => {
                self.index_tokens(entry_id, toks);
                true
            },
            None => false,
        }
    }

    /// Drops the record of `entry_id`, if there is one.
    pub fn remove(&mut self, entry_id: i64)
        requires
            old(self).wf(),
        ensures
            final(self).wf(),
            !ids(old(self)@).contains(entry_id) ==> final(self)@ == old(self)@,
            forall|k: int|
                0 <= k < old(self)@.len() && old(self)@[k].0 == entry_id ==> final(self)@
                    == old(self)@.remove(k),
    {
        let ghost before = self@;
        let ghost old_records = self.records@;
        let mut k: usize = 0;
        while k < self.records.len()
            invariant
                self@ == before,
                before == old(self)@,
                ids(before).no_duplicates(),
                self.records@ == old_records,
                before == old_records.map_values(|r: IndexRecord| (r.entry_id, views(r.tokens@))),
                k <= before.len(),
                forall|j: int| 0 <= j < k ==> before[j].0 != entry_id,
            decreases before.len() - k,
        {
            if self.records[k].entry_id == entry_id {
                self.records.remove(k);
                proof {
                    assert(self.records@ == old_records.remove(k as int));
                    assert(self@ =~= before.remove(k as int));
                    assert(ids(self@) =~= ids(before).remove(k as int));
                    assert(ids(before)[k as int] == entry_id);
                    assert forall|i: int, j: int|
                        0 <= i < ids(self@).len() && 0 <= j < ids(self@).len() && i != j implies ids(self@)[i]
                        != ids(self@)[j] by {
                        let ii = if i < k { i } else { i + 1 };
                        let jj = if j < k { j } else { j + 1 };
                        assert(ids(self@)[i] == ids(before)[ii]);
                        assert(ids(self@)[j] == ids(before)[jj]);
                    }
                    assert forall|j: int|
                        0 <= j < before.len() && before[j].0 == entry_id implies self@ == before.remove(j) by {
                        if j != k {
                            assert(ids(before)[j] == before[j].0);
                        }
                    }
                }
                return;
            }
            k = k + 1;
        }
        proof {
            assert(!ids(before).contains(entry_id)) by {
                if ids(before).contains(entry_id) {
                    let j = choose|j: int| 0 <= j < ids(before).len() && ids(before)[j] == entry_id;
                    assert(before[j].0 == entry_id);
                }
            }
        }
    }

    /// The entries whose content holds every token of `query`, most
    /// relevant first (ties: higher identifier first); an empty query finds
    /// nothing. `None` when the stemmer fails.
    pub fn search(&self, query: &str) -> (r: Option<Vec<i64>>)
        requires
            self.wf(),
        ensures
            words(query@).len() == 0 ==> (r matches Some(v) && v@.len() == 0),
            r matches Some(v) ==> {
                &&& v@.to_set() == hits(self@, tokens(query@))
                &&& v@.no_duplicates()
                &&& by_relevance(self@, tokens(query@), v@)
            },
    {
        match tokenize(query) {
            Some(q) => {
                let found = self.search_tokens(&q);
                proof {
                    if q@.len() == 0 && found@.len() > 0 {
                        assert(found@.to_set().contains(found@[0]));
                    }
                }
                Some(found)
            },
            None => None,
        }
    }

    /// The entries whose records hold every one of the tokens `q`, most
    /// relevant first (ties: higher identifier first); no tokens find
    /// nothing.
    pub fn search_tokens(&self, q: &Vec<String>) -> (r: Vec<i64>)
        requires
            self.wf(),
        ensures
            r@.to_set() == hits(self@, views(q@)),
            r@.no_duplicates(),
            by_relevance(self@, views(q@), r@),
    {
        let ghost qv = views(q@);
        let mut found: Vec<(i64, i64)> = Vec::new();
        let mut k: usize = 0;
        while k < self.records.len()
            invariant
                self.wf(),
                views(q@) == qv,
                k <= self@.len(),
                forall|p: (i64, i64)|
                    found@.contains(p) <==> exists|j: int|
                        0 <= j < k && #[trigger] self@[j].0 == p.1 && answers(self@[j].1, qv)
                            && p.0 == score(self@[j].1, qv),
                ids(self@).no_duplicates(),
                found@.map_values(|p: (i64, i64)| p.1).no_duplicates(),
                forall|p: (i64, i64)| found@.contains(p) ==> ids(self@).subrange(0, k as int).contains(p.1),
            decreases self@.len() - k,
        {
            let rec = &self.records[k];
            let (ok, s) = self.match_record(rec, q);
            let ghost prev = found@;
            if ok {
                found.push((s, rec.entry_id));
            }
            proof {
                let f = |p: (i64, i64)| p.1;
                assert(self@[k as int] == (rec.entry_id, views(rec.tokens@)));
                assert(ids(self@).subrange(0, k + 1) =~= ids(self@).subrange(0, k as int).push(rec.entry_id));
                assert(!ids(self@).subrange(0, k as int).contains(rec.entry_id)) by {
                    if ids(self@).subrange(0, k as int).contains(rec.entry_id) {
                        let j = choose|j: int| 0 <= j < k && #[trigger] ids(self@).subrange(0, k as int)[j] == rec.entry_id;
                        assert(ids(self@)[j] == ids(self@)[k as int]);
                    }
                }
                assert forall|p: (i64, i64)| found@.contains(p) implies ids(self@).subrange(0, k + 1).contains(p.1) by {
                    if prev.contains(p) {
                        let j = choose|j: int| 0 <= j < k && ids(self@).subrange(0, k as int)[j] == p.1;
                        assert(ids(self@).subrange(0, k + 1)[j] == p.1);
                    } else {
                        assert(ids(self@).subrange(0, k + 1)[k as int] == rec.entry_id);
                        let i = choose|i: int| 0 <= i < found@.len() && found@[i] == p;
                        assert(i == prev.len());
                    }
                }
                if ok {
                    assert(found@ == prev.push((s, rec.entry_id)));
                    assert(found@.map_values(f) =~= prev.map_values(f).push(rec.entry_id));
                    assert(!prev.map_values(f).contains(rec.entry_id)) by {
                        if prev.map_values(f).contains(rec.entry_id) {
                            let j = choose|j: int| 0 <= j < prev.len() && #[trigger] prev.map_values(f)[j] == rec.entry_id;
                            assert(prev.contains(prev[j]));
                        }
                    }
                    assert forall|i: int, j: int|
                        0 <= i < found@.len() && 0 <= j < found@.len() && i != j implies found@.map_values(f)[i] != found@.map_values(f)[j] by {
                        if j == prev.len() && i < prev.len() {
                            assert(prev.map_values(f).contains(prev.map_values(f)[i]));
                        } else if i == prev.len() && j < prev.len() {
                            assert(prev.map_values(f).contains(prev.map_values(f)[j]));
                        }
                    }
                } else {
                    assert(found@ == prev);
                }
                assert forall|p: (i64, i64)|
                    found@.contains(p) <==> exists|j: int|
                        0 <= j < k + 1 && #[trigger] self@[j].0 == p.1 && answers(self@[j].1, qv)
                            && p.0 == score(self@[j].1, qv) by {
                    if found@.contains(p) {
                        let i = choose|i: int| 0 <= i < found@.len() && found@[i] == p;
                        if i < prev.len() {
                            assert(prev.contains(p));
                        } else {
                            assert(self@[k as int].0 == p.1);
                        }
                    }
                    if exists|j: int|
                        0 <= j < k + 1 && #[trigger] self@[j].0 == p.1 && answers(self@[j].1, qv)
                            && p.0 == score(self@[j].1, qv) {
                        let j = choose|j: int|
                            0 <= j < k + 1 && #[trigger] self@[j].0 == p.1 && answers(self@[j].1, qv)
                                && p.0 == score(self@[j].1, qv);
                        if j < k {
                            assert(prev.contains(p));
                            let i = choose|i: int| 0 <= i < prev.len() && prev[i] == p;
                            assert(found@[i] == p);
                        } else {
                            assert(found@[prev.len() as int] == p);
                        }
                    }
                }
            }
            k = k + 1;
        }
        let ranked_pairs = rank(&found);
        let mut out: Vec<i64> = Vec::new();
        let mut i: usize = 0;
        while i < ranked_pairs.len()
            invariant
                i <= ranked_pairs@.len(),
                out@ == ranked_pairs@.subrange(0, i as int).map_values(|p: (i64, i64)| p.1),
            decreases ranked_pairs@.len() - i,
        {
            out.push(ranked_pairs[i].1);
            proof {
                assert(ranked_pairs@.subrange(0, i + 1).map_values(|p: (i64, i64)| p.1) =~= ranked_pairs@.subrange(0, i as int).map_values(|p: (i64, i64)| p.1).push(ranked_pairs@[i as int].1));
            }
            i = i + 1;
        }
        proof {
            assert(ranked_pairs@.subrange(0, ranked_pairs@.len() as int) =~= ranked_pairs@);
            lemma_search_result(self@, qv, found@, ranked_pairs@, out@);
        }
        out
    }

    /// Whether `rec` answers the query tokens `q`, and its score.
    fn match_record(&self, rec: &IndexRecord, q: &Vec<String>) -> (r: (bool, i64))
        ensures
            r.0 == answers(views(rec.tokens@), views(q@)),
            r.0 ==> r.1 == score(views(rec.tokens@), views(q@)),
    {
        let ghost toks = views(rec.tokens@);
        let mut all = q.len() > 0;
        let mut s: i64 = 0;
        let mut k: usize = 0;
        while k < q.len()
            invariant
                k <= q@.len(),
                toks == views(rec.tokens@),
                all == (q@.len() > 0 && forall|j: int| 0 <= j < k ==> toks.contains(#[trigger] views(q@)[j])),
                s == score(toks, views(q@).subrange(0, k as int)),
                0 <= s <= i64::MAX,
            decreases q@.len() - k,
        {
            let n = count(&rec.tokens, &q[k]);
            let n64: i64 = if n as u64 > 0x7fff_ffff_ffff_ffffu64 {
                i64::MAX
            } else {
                n as i64
            };
            proof {
                assert(views(q@).subrange(0, k + 1).drop_last() =~= views(q@).subrange(0, k as int));
                assert(views(q@)[k as int] == q@[k as int]@);
                assert(views(q@).subrange(0, k + 1).last() == views(q@)[k as int]);
                lemma_occurs_contains(toks, views(q@)[k as int]);
            }
            proof {
                assert((forall|j: int| 0 <= j < k + 1 ==> toks.contains(#[trigger] views(q@)[j]))
                    == ((forall|j: int| 0 <= j < k ==> toks.contains(#[trigger] views(q@)[j]))
                    && toks.contains(views(q@)[k as int])));
                assert(score(toks, views(q@).subrange(0, k + 1)) == capped_add(
                    score(toks, views(q@).subrange(0, k as int)),
                    occurrences(toks, views(q@)[k as int]),
                ));
            }
            if n == 0 {
                all = false;
            }
            if s > i64::MAX - n64 {
                s = i64::MAX;
            } else {
                s = s + n64;
            }
            k = k + 1;
        }
        assert(views(q@).subrange(0, k as int) =~= views(q@));
        (all, s)
    }
}

/// A run of word characters is a single word, whose terms are its tokens.
pub proof fn lemma_single_word(w: Seq<char>)
    requires
        w.len() > 0,
        forall|i: int| 0 <= i < w.len() ==> word_char(#[trigger] w[i]),
    ensures
        words(w) == seq![w],
        tokens(w) == terms_of(w),
{
    lemma_word_end_all(w, 0);
    assert(w.subrange(0, w.len() as int) =~= w);
    assert(runs_from(w, w.len() as int) == Seq::<Seq<char>>::empty());
    assert(seq![w] + Seq::<Seq<char>>::empty() =~= seq![w]);
    assert(tokens_from(w, w.len() as int) == Seq::<Seq<char>>::empty());
    assert(terms_of(w) + Seq::<Seq<char>>::empty() =~= terms_of(w));
}

proof fn lemma_word_end_all(w: Seq<char>, i: int)
    requires
        0 <= i <= w.len(),
        forall|j: int| 0 <= j < w.len() ==> word_char(#[trigger] w[j]),
    ensures
        word_end(w, i) == w.len(),
    decreases w.len() - i,
{
    if i < w.len() {
        lemma_word_end_all(w, i + 1);
    }
}

/// Searching for a word whose stem is the stem of a word of an indexed
/// content finds the entry, and a query with a token that the content
/// lacks does not.
pub proof fn lemma_search_round_trip(
    ix: Seq<(i64, Seq<Seq<char>>)>,
    k: int,
    content: Seq<char>,
    query: Seq<char>,
)
    requires
        ids(ix).no_duplicates(),
        0 <= k < ix.len(),
        ix[k].1 == tokens(content),
    ensures
        query.len() > 0 && (forall|i: int| 0 <= i < query.len() ==> word_char(#[trigger] query[i]))
            && terms_of(query).len() > 0
            && (exists|w: Seq<char>| #[trigger] words(content).contains(w) && terms_of(w) == terms_of(query))
            ==> hits(ix, tokens(query)).contains(ix[k].0),
        (exists|t: Seq<char>| tokens(query).contains(t) && !tokens(content).contains(t))
            ==> !hits(ix, tokens(query)).contains(ix[k].0),
{
    let id = ix[k].0;
    if query.len() > 0 && (forall|i: int| 0 <= i < query.len() ==> word_char(#[trigger] query[i]))
        && terms_of(query).len() > 0
        && (exists|w: Seq<char>| #[trigger] words(content).contains(w) && terms_of(w) == terms_of(query)) {
        lemma_single_word(query);
        let w = choose|w: Seq<char>| #[trigger] words(content).contains(w) && terms_of(w) == terms_of(query);
        lemma_tokens_of_words(content, 0);
        assert forall|j: int| 0 <= j < tokens(query).len() implies ix[k].1.contains(#[trigger] tokens(query)[j]) by {
            assert(terms_of(w).contains(terms_of(query)[j]));
        }
        assert(answers(ix[k].1, tokens(query)));
    }
    if exists|t: Seq<char>| tokens(query).contains(t) && !tokens(content).contains(t) {
        let t = choose|t: Seq<char>| tokens(query).contains(t) && !tokens(content).contains(t);
        if hits(ix, tokens(query)).contains(id) {
            let j = choose|j: int| 0 <= j < ix.len() && #[trigger] ix[j].0 == id && answers(ix[j].1, tokens(query));
            assert(ids(ix)[j] == ids(ix)[k]);
            let q = choose|q: int| 0 <= q < tokens(query).len() && tokens(query)[q] == t;
            assert(ix[j].1.contains(tokens(query)[q]));
        }
    }
}

/// A score is a count held at the largest `i64`.
pub proof fn lemma_score_range(toks: Seq<Seq<char>>, q: Seq<Seq<char>>)
    ensures
        0 <= score(toks, q) <= i64::MAX,
    decreases q.len(),
{
    if q.len() > 0 {
        lemma_score_range(toks, q.drop_last());
        lemma_occurs_contains(toks, q.last());
    }
}

/// `t` occurs in `toks` exactly when it has a positive count.
pub proof fn lemma_occurs_contains(toks: Seq<Seq<char>>, t: Seq<char>)
    ensures
        occurrences(toks, t) >= 0,
        occurrences(toks, t) > 0 <==> toks.contains(t),
    decreases toks.len(),
{
    if toks.len() > 0 {
        lemma_occurs_contains(toks.drop_last(), t);
        if toks.drop_last().contains(t) {
            let i = choose|i: int| 0 <= i < toks.drop_last().len() && toks.drop_last()[i] == t;
            assert(toks[i] == t);
        }
        if toks.contains(t) && toks.last() != t {
            let i = choose|i: int| 0 <= i < toks.len() && toks[i] == t;
            assert(toks.drop_last()[i] == t);
        }
    }
}

proof fn lemma_search_result(
    ix: Seq<(i64, Seq<Seq<char>>)>,
    q: Seq<Seq<char>>,
    found: Seq<(i64, i64)>,
    ranked_pairs: Seq<(i64, i64)>,
    out: Seq<i64>,
)
    requires
        ids(ix).no_duplicates(),
        forall|p: (i64, i64)|
            found.contains(p) <==> exists|j: int|
                0 <= j < ix.len() && #[trigger] ix[j].0 == p.1 && answers(ix[j].1, q) && p.0
                    == score(ix[j].1, q),
        found.map_values(|p: (i64, i64)| p.1).no_duplicates(),
        ranked(ranked_pairs),
        ranked_pairs.len() == found.len(),
        forall|x: (i64, i64)| ranked_pairs.contains(x) <==> found.contains(x),
        found.no_duplicates() ==> ranked_pairs.no_duplicates(),
        out == ranked_pairs.map_values(|p: (i64, i64)| p.1),
    ensures
        out.to_set() == hits(ix, q),
        out.no_duplicates(),
        by_relevance(ix, q, out),
{
    let f = |p: (i64, i64)| p.1;
    assert(found.no_duplicates()) by {
        assert forall|a: int, b: int|
            0 <= a < found.len() && 0 <= b < found.len() && a != b implies found[a] != found[b] by {
            assert(found.map_values(f)[a] == found[a].1);
            assert(found.map_values(f)[b] == found[b].1);
        }
    }
    // The record found for a ranked pair holds the pair's score.
    assert forall|i: int| 0 <= i < ranked_pairs.len() implies {
        &&& #[trigger] record_of(ix, ranked_pairs[i].1) is Some
        &&& ranked_pairs[i].0 == score(record_of(ix, ranked_pairs[i].1)->0, q)
    } by {
        let p = ranked_pairs[i];
        assert(ranked_pairs.contains(p));
        let j = choose|j: int|
            0 <= j < ix.len() && #[trigger] ix[j].0 == p.1 && answers(ix[j].1, q) && p.0
                == score(ix[j].1, q);
        let k = choose|k: int| 0 <= k < ix.len() && #[trigger] ix[k].0 == p.1;
        assert(ids(ix)[k] == ids(ix)[j]);
    }
    assert forall|i: int, j: int| 0 <= i < out.len() && 0 <= j < out.len() && i != j implies out[i]
        != out[j] by {
        let a = ranked_pairs[i];
        let b = ranked_pairs[j];
        if a.1 == b.1 {
            assert(ranked_pairs.contains(a));
            assert(ranked_pairs.contains(b));
            let x = choose|x: int| 0 <= x < found.len() && found[x] == a;
            let y = choose|y: int| 0 <= y < found.len() && found[y] == b;
            assert(found.map_values(f)[x] == found.map_values(f)[y]);
        }
    }
    assert forall|i: int, j: int| 0 <= i < j < out.len() implies #[trigger] outranks(ix, q, out[i], out[j]) by {
        assert(out[i] == ranked_pairs[i].1);
        assert(out[j] == ranked_pairs[j].1);
        assert(!ranks_above(ranked_pairs[j], ranked_pairs[i]));
        assert(record_of(ix, ranked_pairs[i].1) is Some);
        assert(record_of(ix, ranked_pairs[j].1) is Some);
        assert(out[i] != out[j]);
    }
    assert forall|x: i64| out.to_set().contains(x) <==> hits(ix, q).contains(x) by {
        if out.to_set().contains(x) {
            let i = choose|i: int| 0 <= i < out.len() && out[i] == x;
            let p = ranked_pairs[i];
            assert(out[i] == p.1);
            assert(ranked_pairs.contains(p));
            let j = choose|j: int|
                0 <= j < ix.len() && #[trigger] ix[j].0 == p.1 && answers(ix[j].1, q) && p.0
                    == score(ix[j].1, q);
            assert(hits(ix, q).contains(x));
        }
        if hits(ix, q).contains(x) {
            let k = choose|k: int| 0 <= k < ix.len() && #[trigger] ix[k].0 == x && answers(ix[k].1, q);
            lemma_score_range(ix[k].1, q);
            {
                let p = (score(ix[k].1, q) as i64, x);
                assert(found.contains(p));
                assert(ranked_pairs.contains(p));
                let i = choose|i: int| 0 <= i < ranked_pairs.len() && ranked_pairs[i] == p;
                assert(out[i] == ranked_pairs[i].1);
            }
        }
    }
    assert(out.to_set() =~= hits(ix, q));
}

} // verus!
