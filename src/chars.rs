//! Character classes shared by the sigil scanner, the tokenizer and the
//! completion helper.
use vstd::prelude::*;

verus! {

/// Whether `c`, a character beyond ASCII, is a Unicode word character.
pub uninterp spec fn unicode_word_char(c: char) -> bool;

/// An ASCII word character: a letter, a digit or `_`.
pub open spec fn ascii_word_char(c: char) -> bool {
    ('a' <= c && c <= 'z') || ('A' <= c && c <= 'Z') || ('0' <= c && c <= '9') || c == '_'
}

/// Whether `c` is a Unicode word character (what `\w` matches): among
/// ASCII characters the letters, the digits and `_`.
pub open spec fn word_char(c: char) -> bool {
    if c <= '\u{7f}' {
        ascii_word_char(c)
    } else {
        unicode_word_char(c)
    }
}

/// Whether `c` has Unicode's `White_Space` property.
pub open spec fn white_space(c: char) -> bool {
    ('\u{9}' <= c && c <= '\u{d}') || c == ' ' || c == '\u{85}' || c == '\u{a0}' || c == '\u{1680}'
        || ('\u{2000}' <= c && c <= '\u{200a}') || c == '\u{2028}' || c == '\u{2029}'
        || c == '\u{202f}' || c == '\u{205f}' || c == '\u{3000}'
}

/// Relies on regex_syntax::is_word_character (its default `unicode-perl`
/// feature is on): membership of `c` in the Unicode word class (UTS#18
/// Annex C), which among ASCII characters holds the letters, the digits
/// and `_`, the one ASCII connector punctuation.
#[verifier::external_body]
pub(crate) fn is_word_char(c: char) -> (r: bool)
    ensures
        c <= '\u{7f}' ==> r == ascii_word_char(c),
        c > '\u{7f}' ==> r == unicode_word_char(c),
{
    regex_syntax::is_word_character(c)
}

/// Whether `c` is white space.
pub fn is_white_space(c: char) -> (r: bool)
    ensures
        r == white_space(c),
{
    ('\u{9}' <= c && c <= '\u{d}') || c == ' ' || c == '\u{85}' || c == '\u{a0}' || c == '\u{1680}'
        || ('\u{2000}' <= c && c <= '\u{200a}') || c == '\u{2028}' || c == '\u{2029}'
        || c == '\u{202f}' || c == '\u{205f}' || c == '\u{3000}'
}

/// A character that may stand in an entity name.
pub open spec fn name_char(c: char) -> bool {
    word_char(c) || c == '-'
}

/// End of the run of name characters that starts at `i`.
pub open spec fn name_end(s: Seq<char>, i: int) -> int
    decreases s.len() - i,
{
    if 0 <= i < s.len() && name_char(s[i]) {
        name_end(s, i + 1)
    } else {
        i
    }
}

/// End of the run of word characters that starts at `i`.
pub open spec fn word_end(s: Seq<char>, i: int) -> int
    decreases s.len() - i,
{
    if 0 <= i < s.len() && word_char(s[i]) {
        word_end(s, i + 1)
    } else {
        i
    }
}

pub proof fn lemma_name_end_bounds(s: Seq<char>, i: int)
    requires
        0 <= i <= s.len(),
    ensures
        i <= name_end(s, i) <= s.len(),
        forall|k: int| i <= k < name_end(s, i) ==> name_char(#[trigger] s[k]),
        name_end(s, i) < s.len() ==> !name_char(s[name_end(s, i)]),
    decreases s.len() - i,
{
    if i < s.len() && name_char(s[i]) {
        lemma_name_end_bounds(s, i + 1);
    }
}

pub proof fn lemma_word_end_bounds(s: Seq<char>, i: int)
    requires
        0 <= i <= s.len(),
    ensures
        i <= word_end(s, i) <= s.len(),
        forall|k: int| i <= k < word_end(s, i) ==> word_char(#[trigger] s[k]),
        word_end(s, i) < s.len() ==> !word_char(s[word_end(s, i)]),
    decreases s.len() - i,
{
    if i < s.len() && word_char(s[i]) {
        lemma_word_end_bounds(s, i + 1);
    }
}

/// Scans the run of name characters that starts at `i`.
pub(crate) fn scan_name(text: &str, len: usize, i: usize) -> (e: usize)
    requires
        len == text@.len(),
        i <= len,
    ensures
        e == name_end(text@, i as int),
        i <= e <= len,
{
    let mut j: usize = i;
    loop
        invariant
            i <= j <= len,
            len == text@.len(),
            name_end(text@, i as int) == name_end(text@, j as int),
        ensures
            j == name_end(text@, i as int),
            i <= j <= len,
        decreases len - j,
    {
        if j >= len {
            break;
        }
        let c = text.get_char(j);
        if !(is_word_char(c) || c == '-') {
            break;
        }
        j = j + 1;
    }
    j
}

/// Scans the run of word characters that starts at `i`.
pub(crate) fn scan_word(text: &str, len: usize, i: usize) -> (e: usize)
    requires
        len == text@.len(),
        i <= len,
    ensures
        e == word_end(text@, i as int),
        i <= e <= len,
{
    let mut j: usize = i;
    loop
        invariant
            i <= j <= len,
            len == text@.len(),
            word_end(text@, i as int) == word_end(text@, j as int),
        ensures
            j == word_end(text@, i as int),
            i <= j <= len,
        decreases len - j,
    {
        if j >= len {
            break;
        }
        let c = text.get_char(j);
        if !is_word_char(c) {
            break;
        }
        j = j + 1;
    }
    j
}

} // verus!
