//! Completion of sigil references being typed: the word under the cursor
//! and the entity names that extend it.
use vstd::prelude::*;
use crate::chars::{white_space, is_white_space};
use crate::journal::{Core, Namespace};
use crate::order::{lex_le, sorted_names};
use crate::sigil::views;

verus! {

/// The most completions offered at once.
pub const MAX_COMPLETIONS: usize = 10;

/// A character that ends a word being completed.
pub open spec fn separator(c: char) -> bool {
    white_space(c) || c == ','
}

/// Where the word that ends at `pos` starts: just after the last separator
/// before `pos`, or at 0.
pub open spec fn word_start(s: Seq<char>, pos: int) -> int
    decreases pos,
{
    if pos <= 0 {
        0
    } else if separator(s[pos - 1]) {
        pos
    } else {
        word_start(s, pos - 1)
    }
}

proof fn lemma_word_start_bounds(s: Seq<char>, pos: int)
    requires
        0 <= pos <= s.len(),
    ensures
        0 <= word_start(s, pos) <= pos,
    decreases pos,
{
    if pos > 0 && !separator(s[pos - 1]) {
        lemma_word_start_bounds(s, pos - 1);
    }
}

/// The start (a character position) and the text of the word that ends at
/// character position `pos` of `line`.
pub fn find_word_at_pos(line: &str, pos: usize) -> (r: (usize, String))
    requires
        pos <= line@.len(),
    ensures
        r.0 == word_start(line@, pos as int),
        r.0 <= pos,
        r.1@ == line@.subrange(r.0 as int, pos as int),
{
    let mut start: usize = pos;
    loop
        invariant
            start <= pos <= line@.len(),
            word_start(line@, pos as int) == word_start(line@, start as int),
        ensures
            start <= pos,
            word_start(line@, pos as int) == start,
        decreases start,
    {
        if start == 0 {
            break;
        }
        let c = line.get_char(start - 1);
        if is_white_space(c) || c == ',' {
            break;
        }
        start = start - 1;
    }
    proof {
        lemma_word_start_bounds(line@, start as int);
    }
    (start, line.substring_char(start, pos).to_owned())
}

/// One proposed completion: the name shown and the text that replaces the
/// word.
pub struct Completion {
    pub display: String,
    pub replacement: String,
}

/// The namespace that `c` marks, if it is a sigil.
pub open spec fn sigil_namespace(c: char) -> Option<Namespace> {
    if c == '@' {
        Some(Namespace::Person)
    } else if c == '%' {
        Some(Namespace::Project)
    } else if c == '#' {
        Some(Namespace::Tag)
    } else {
        None
    }
}

/// The names that extend `prefix`.
pub open spec fn extends(prefix: Seq<char>) -> spec_fn(Seq<char>) -> bool {
    |x: Seq<char>| prefix.is_prefix_of(x)
}

/// Whether `s` starts with `prefix`.
fn starts_with(s: &str, prefix: &str) -> (r: bool)
    ensures
        r == prefix@.is_prefix_of(s@),
{
    let ls = s.unicode_len();
    let lp = prefix.unicode_len();
    if lp > ls {
        return false;
    }
    let mut i: usize = 0;
    while i < lp
        invariant
            ls == s@.len(),
            lp == prefix@.len(),
            lp <= ls,
            i <= lp,
            forall|j: int| 0 <= j < i ==> prefix@[j] == s@[j],
        decreases lp - i,
    {
        if prefix.get_char(i) != s.get_char(i) {
            return false;
        }
        i = i + 1;
    }
    assert(prefix@ =~= s@.subrange(0, lp as int));
    true
}

/// `out` offers, in order, the first names of `names` that extend
/// `prefix`, at most `MAX_COMPLETIONS` of them.
pub open spec fn offers(out: Seq<Seq<char>>, names: Seq<Seq<char>>, prefix: Seq<char>) -> bool {
    &&& out.len() <= MAX_COMPLETIONS
    &&& sorted_names(out)
    &&& out.no_duplicates()
    &&& forall|i: int| 0 <= i < out.len() ==> names.contains(#[trigger] out[i]) && prefix.is_prefix_of(out[i])
    &&& forall|x: Seq<char>|
        names.contains(x) && prefix.is_prefix_of(x) && !out.contains(x) ==> out.len() == MAX_COMPLETIONS
            && forall|i: int| 0 <= i < out.len() ==> lex_le(#[trigger] out[i], x)
}

impl Core {
    /// Every name of `ns`, in lexicographic order.
    pub fn list(&self, ns: Namespace) -> (r: Vec<String>)
        requires
            self.wf(),
        ensures
            sorted_names(views(r@)),
            views(r@).no_duplicates(),
            forall|x: Seq<char>| views(r@).contains(x) <==> self.registry(ns)@.contains(x),
    {
        proof {
            assert(self.registry(ns).wf()) by {
                match ns {
                    Namespace::Person => {},
                    Namespace::Project => {},
                    Namespace::Tag => {},
                }
            }
        }
        match ns {
            Namespace::Person => self.people.list(),
            Namespace::Project => self.projects.list(),
            Namespace::Tag => self.tags.list(),
        }
    }

    /// The completions of the word that ends at character position `pos`
    /// of `line`: when it starts with a sigil, the names of that namespace
    /// that extend the rest of the word, each offered with the sigil.
    pub fn complete(&self, line: &str, pos: usize) -> (r: (usize, Vec<Completion>))
        requires
            self.wf(),
            pos <= line@.len(),
        ensures
            r.0 == word_start(line@, pos as int),
            ({
                let word = line@.subrange(r.0 as int, pos as int);
                if word.len() == 0 || sigil_namespace(word[0]) is None {
                    r.1@.len() == 0
                } else {
                    let ns = sigil_namespace(word[0])->0;
                    &&& offers(
                        r.1@.map_values(|c: Completion| c.display@),
                        self.registry(ns)@,
                        word.drop_first(),
                    )
                    &&& forall|i: int|
                        0 <= i < r.1@.len() ==> (#[trigger] r.1@[i]).replacement@ == seq![word[0]]
                            + r.1@[i].display@
                }
            }),
    {
        let (start, word) = find_word_at_pos(line, pos);
        let len = word.as_str().unicode_len();
        let mut out: Vec<Completion> = Vec::new();
        if len == 0 {
            return (start, out);
        }
        let c = word.as_str().get_char(0);
        let ns = if c == '@' {
            Namespace::Person
        } else if c == '%' {
            Namespace::Project
        } else if c == '#' {
            Namespace::Tag
        } else {
            return (start, out);
        };
        let sigil = word.as_str().substring_char(0, 1);
        let prefix = word.as_str().substring_char(1, len);
        proof {
            assert(sigil@ =~= seq![c]);
            assert(prefix@ =~= word@.drop_first());
        }
        let names = self.list(ns);
        let ghost all = views(names@);
        let mut k: usize = 0;
        while k < names.len() && out.len() < MAX_COMPLETIONS
            invariant
                all == views(names@),
                sorted_names(all),
                all.no_duplicates(),
                forall|x: Seq<char>| all.contains(x) <==> self.registry(ns)@.contains(x),
                k <= all.len(),
                sigil@ == seq![c],
                out@.len() <= MAX_COMPLETIONS,
                ({
                    let shown = out@.map_values(|c: Completion| c.display@);
                    &&& shown == all.subrange(0, k as int).filter(extends(prefix@))
                }),
                forall|i: int|
                    0 <= i < out@.len() ==> (#[trigger] out@[i]).replacement@ == seq![c] + out@[i].display@,
            decreases all.len() - k,
        {
            let name = &names[k];
            if starts_with(name.as_str(), prefix) {
                let mut rep = sigil.to_owned();
                rep.append(name.as_str());
                out.push(Completion { display: name.clone(), replacement: rep });
            }
            proof {
                reveal(Seq::filter);
                let p = extends(prefix@);
                assert(all.subrange(0, k + 1).drop_last() =~= all.subrange(0, k as int));
                assert(all.subrange(0, k + 1).last() == name@);
                assert(out@.map_values(|c: Completion| c.display@) =~= all.subrange(0, k + 1).filter(p));
            }
            k = k + 1;
        }
        proof {
            lemma_offers(all, k as int, prefix@, out@.map_values(|c: Completion| c.display@), self.registry(ns)@);
        }
        (start, out)
    }
}

/// Completes sigil references against the entities of a store.
pub struct DiaCompleter {
    pub core: Core,
}

impl DiaCompleter {
    pub fn new(core: Core) -> (c: DiaCompleter)
        ensures
            c.core == core,
    {
        DiaCompleter { core }
    }

    /// The completions at character position `pos` of `line`, as
    /// `Core::complete` gives them.
    pub fn complete(&self, line: &str, pos: usize) -> (r: (usize, Vec<Completion>))
        requires
            self.core.wf(),
            pos <= line@.len(),
        ensures
            r.0 == word_start(line@, pos as int),
            ({
                let word = line@.subrange(r.0 as int, pos as int);
                if word.len() == 0 || sigil_namespace(word[0]) is None {
                    r.1@.len() == 0
                } else {
                    let ns = sigil_namespace(word[0])->0;
                    &&& offers(
                        r.1@.map_values(|c: Completion| c.display@),
                        self.core.registry(ns)@,
                        word.drop_first(),
                    )
                    &&& forall|i: int|
                        0 <= i < r.1@.len() ==> (#[trigger] r.1@[i]).replacement@ == seq![word[0]]
                            + r.1@[i].display@
                }
            }),
    {
        self.core.complete(line, pos)
    }
}

/// A line-editor helper that offers no completions of its own.
pub struct CompleterHelper {}

impl CompleterHelper {
    /// Leaves the line as it is: the cursor position and no candidates.
    pub fn complete(&self, line: &str, pos: usize) -> (r: (usize, Vec<Completion>))
        ensures
            r.0 == pos,
            r.1@.len() == 0,
    {
        (pos, Vec::new())
    }
}

/// Filtering a sorted sequence of distinct names keeps it sorted and
/// distinct, and keeps exactly the names that pass.
proof fn lemma_filter_sorted(s: Seq<Seq<char>>, p: spec_fn(Seq<char>) -> bool)
    requires
        sorted_names(s),
        s.no_duplicates(),
    ensures
        sorted_names(s.filter(p)),
        s.filter(p).no_duplicates(),
        forall|x: Seq<char>| s.filter(p).contains(x) <==> s.contains(x) && p(x),
    decreases s.len(),
{
    reveal(Seq::filter);
    if s.len() > 0 {
        let d = s.drop_last();
        assert(sorted_names(d)) by {
            assert forall|i: int, j: int| 0 <= i < j < d.len() implies lex_le(#[trigger] d[i], #[trigger] d[j]) by {
                assert(d[i] == s[i] && d[j] == s[j]);
            }
        }
        assert(d.no_duplicates()) by {
            assert forall|i: int, j: int| 0 <= i < d.len() && 0 <= j < d.len() && i != j implies d[i] != d[j] by {
                assert(d[i] == s[i] && d[j] == s[j]);
            }
        }
        lemma_filter_sorted(d, p);
        let f0 = d.filter(p);
        let last = s.last();
        assert(!d.contains(last)) by {
            if d.contains(last) {
                let i = choose|i: int| 0 <= i < d.len() && d[i] == last;
                assert(s[i] == s[s.len() - 1]);
            }
        }
        assert forall|x: Seq<char>| d.contains(x) implies lex_le(x, last) by {
            let i = choose|i: int| 0 <= i < d.len() && d[i] == x;
            assert(s[i] == x);
            assert(lex_le(s[i], s[s.len() - 1]));
        }
        assert forall|x: Seq<char>| s.contains(x) <==> d.contains(x) || x == last by {
            if s.contains(x) && x != last {
                let i = choose|i: int| 0 <= i < s.len() && s[i] == x;
                assert(d[i] == x);
            }
            if d.contains(x) {
                let i = choose|i: int| 0 <= i < d.len() && d[i] == x;
                assert(s[i] == x);
            }
            if x == last {
                assert(s[s.len() - 1] == x);
            }
        }
        if p(last) {
            let f = f0.push(last);
            assert(s.filter(p) == f);
            assert forall|i: int, j: int| 0 <= i < j < f.len() implies lex_le(#[trigger] f[i], #[trigger] f[j]) by {
                if j == f0.len() {
                    assert(f0.contains(f0[i]));
                }
            }
            assert forall|i: int, j: int| 0 <= i < f.len() && 0 <= j < f.len() && i != j implies f[i] != f[j] by {
                if j == f0.len() {
                    assert(f0.contains(f0[i]));
                } else if i == f0.len() {
                    assert(f0.contains(f0[j]));
                }
            }
            assert forall|x: Seq<char>| f.contains(x) <==> f0.contains(x) || x == last by {
                if f.contains(x) && x != last {
                    let i = choose|i: int| 0 <= i < f.len() && f[i] == x;
                    assert(f0[i] == x);
                }
                if f0.contains(x) {
                    let i = choose|i: int| 0 <= i < f0.len() && f0[i] == x;
                    assert(f[i] == x);
                }
                if x == last {
                    assert(f[f0.len() as int] == x);
                }
            }
        } else {
            assert(s.filter(p) == f0);
        }
    }
}

proof fn lemma_offers(all: Seq<Seq<char>>, k: int, prefix: Seq<char>, shown: Seq<Seq<char>>, names: Seq<Seq<char>>)
    requires
        sorted_names(all),
        all.no_duplicates(),
        forall|x: Seq<char>| all.contains(x) <==> names.contains(x),
        0 <= k <= all.len(),
        shown == all.subrange(0, k).filter(extends(prefix)),
        shown.len() <= MAX_COMPLETIONS,
        k < all.len() ==> shown.len() == MAX_COMPLETIONS,
    ensures
        offers(shown, names, prefix),
{
    let p = extends(prefix);
    let head = all.subrange(0, k);
    assert(sorted_names(head)) by {
        assert forall|i: int, j: int| 0 <= i < j < head.len() implies lex_le(#[trigger] head[i], #[trigger] head[j]) by {
            assert(head[i] == all[i] && head[j] == all[j]);
        }
    }
    assert(head.no_duplicates()) by {
        assert forall|i: int, j: int| 0 <= i < head.len() && 0 <= j < head.len() && i != j implies head[i] != head[j] by {
            assert(head[i] == all[i] && head[j] == all[j]);
        }
    }
    lemma_filter_sorted(head, p);
    assert(shown == head.filter(p));
    assert forall|i: int| 0 <= i < shown.len() implies names.contains(#[trigger] shown[i]) && prefix.is_prefix_of(
        shown[i],
    ) by {
        assert(shown.contains(shown[i]));
        assert(head.contains(shown[i]));
        let j = choose|j: int| 0 <= j < head.len() && head[j] == shown[i];
        assert(all[j] == shown[i]);
        assert(all.contains(shown[i]));
    }
    assert forall|x: Seq<char>|
        names.contains(x) && prefix.is_prefix_of(x) && !shown.contains(x) implies shown.len() == MAX_COMPLETIONS
            && forall|i: int| 0 <= i < shown.len() ==> lex_le(#[trigger] shown[i], x) by {
        let m = choose|m: int| 0 <= m < all.len() && all[m] == x;
        if m < k {
            assert(head[m] == x);
            assert(p(x));
        }
        assert forall|i: int| 0 <= i < shown.len() implies lex_le(#[trigger] shown[i], x) by {
            assert(shown.contains(shown[i]));
            assert(head.contains(shown[i]));
            let j = choose|j: int| 0 <= j < head.len() && head[j] == shown[i];
            assert(all[j] == shown[i]);
        }
    }
}

} // verus!
