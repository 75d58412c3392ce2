//! The sigil extractor: pure scanning of `@name`, `%name` and `#name`.
use vstd::prelude::*;
use crate::chars::{name_end, lemma_name_end_bounds, scan_name};

verus! {

/// The names that follow `sigil` in `s` from position `i` on, scanning
/// left to right without overlap; a name is a maximal non-empty run of
/// name characters right after the sigil.
pub open spec fn refs_from(s: Seq<char>, sigil: char, i: int) -> Seq<Seq<char>>
    decreases s.len() - i,
    via refs_from_decreases
{
    if i < 0 || i >= s.len() {
        seq![]
    } else if s[i] == sigil && name_end(s, i + 1) > i + 1 {
        seq![s.subrange(i + 1, name_end(s, i + 1))] + refs_from(s, sigil, name_end(s, i + 1))
    } else {
        refs_from(s, sigil, i + 1)
    }
}

#[via_fn]
proof fn refs_from_decreases(s: Seq<char>, sigil: char, i: int) {
    if 0 <= i < s.len() {
        lemma_name_end_bounds(s, i + 1);
    }
}

/// The names that `sigil` marks in `s`, in scan order, repeats included.
pub open spec fn refs(s: Seq<char>, sigil: char) -> Seq<Seq<char>> {
    refs_from(s, sigil, 0)
}

pub open spec fn person_refs(s: Seq<char>) -> Seq<Seq<char>> {
    refs(s, '@')
}

pub open spec fn project_refs(s: Seq<char>) -> Seq<Seq<char>> {
    refs(s, '%')
}

pub open spec fn tag_refs(s: Seq<char>) -> Seq<Seq<char>> {
    refs(s, '#')
}

/// The views of a vector of strings.
pub open spec fn views(v: Seq<String>) -> Seq<Seq<char>> {
    v.map_values(|x: String| x@)
}

/// The references of one text, one sequence per namespace.
pub struct SigilRefs {
    pub people: Vec<String>,
    pub projects: Vec<String>,
    pub tags: Vec<String>,
}

/// Every name that `sigil` marks in `text`, in scan order.
pub fn extract(text: &str, sigil: char) -> (r: Vec<String>)
    ensures
        views(r@) == refs(text@, sigil),
{
    let len = text.unicode_len();
    let mut out: Vec<String> = Vec::new();
    let mut i: usize = 0;
    while i < len
        invariant
            len == text@.len(),
            i <= len,
            views(out@) + refs_from(text@, sigil, i as int) == refs(text@, sigil),
        decreases len - i,
    {
        let c = text.get_char(i);
        let e = if c == sigil { scan_name(text, len, i + 1) } else { i + 1 };
        proof {
            if c == sigil {
                lemma_name_end_bounds(text@, i + 1);
            }
        }
        if c == sigil && e > i + 1 {
            let name = text.substring_char(i + 1, e).to_owned();
            let ghost before = views(out@);
            out.push(name);
            proof {
                assert(views(out@) =~= before.push(name@));
                assert(before + refs_from(text@, sigil, i as int) =~= views(out@) + refs_from(
                    text@,
                    sigil,
                    e as int,
                ));
            }
            i = e;
        } else {
            i = i + 1;
        }
    }
    out
}

/// Every reference in `text`, split by namespace.
pub fn extract_refs(text: &str) -> (r: SigilRefs)
    ensures
        views(r.people@) == person_refs(text@),
        views(r.projects@) == project_refs(text@),
        views(r.tags@) == tag_refs(text@),
{
    SigilRefs { people: extract(text, '@'), projects: extract(text, '%'), tags: extract(text, '#') }
}

} // verus!
