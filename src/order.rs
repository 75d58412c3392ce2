//! Lexicographic order of names, by code point, and sorted listing.
use vstd::prelude::*;
use crate::registry::Registry;
use crate::sigil::views;

verus! {

/// `a` comes no later than `b` in code-point lexicographic order.
pub open spec fn lex_le(a: Seq<char>, b: Seq<char>) -> bool
    decreases a.len(),
{
    if a.len() == 0 {
        true
    } else if b.len() == 0 {
        false
    } else if a[0] != b[0] {
        a[0] < b[0]
    } else {
        lex_le(a.drop_first(), b.drop_first())
    }
}

/// Each name comes no later than every name after it.
pub open spec fn sorted_names(s: Seq<Seq<char>>) -> bool {
    forall|i: int, j: int| 0 <= i < j < s.len() ==> lex_le(#[trigger] s[i], #[trigger] s[j])
}

pub proof fn lemma_lex_total(a: Seq<char>, b: Seq<char>)
    ensures
        lex_le(a, b) || lex_le(b, a),
        lex_le(a, b) && lex_le(b, a) ==> a == b,
    decreases a.len(),
{
    if a.len() > 0 && b.len() > 0 && a[0] == b[0] {
        lemma_lex_total(a.drop_first(), b.drop_first());
        if lex_le(a, b) && lex_le(b, a) {
            assert(a =~= seq![a[0]] + a.drop_first());
            assert(b =~= seq![b[0]] + b.drop_first());
        }
    }
    if a.len() == 0 && b.len() == 0 {
        assert(a =~= b);
    }
}

pub proof fn lemma_lex_trans(a: Seq<char>, b: Seq<char>, c: Seq<char>)
    requires
        lex_le(a, b),
        lex_le(b, c),
    ensures
        lex_le(a, c),
    decreases a.len(),
{
    if a.len() > 0 && b.len() > 0 && c.len() > 0 && a[0] == b[0] && b[0] == c[0] {
        lemma_lex_trans(a.drop_first(), b.drop_first(), c.drop_first());
    }
}

/// Whether `a` comes no later than `b`.
pub fn str_le(a: &str, b: &str) -> (r: bool)
    ensures
        r == lex_le(a@, b@),
{
    let la = a.unicode_len();
    let lb = b.unicode_len();
    let mut i: usize = 0;
    assert(a@.subrange(0, la as int) =~= a@);
    assert(b@.subrange(0, lb as int) =~= b@);
    while i < la && i < lb
        invariant
            la == a@.len(),
            lb == b@.len(),
            i <= la,
            i <= lb,
            lex_le(a@, b@) == lex_le(a@.subrange(i as int, la as int), b@.subrange(i as int, lb as int)),
        decreases la - i,
    {
        let x = a.get_char(i);
        let y = b.get_char(i);
        proof {
            let sa = a@.subrange(i as int, la as int);
            let sb = b@.subrange(i as int, lb as int);
            assert(sa.drop_first() =~= a@.subrange(i + 1, la as int));
            assert(sb.drop_first() =~= b@.subrange(i + 1, lb as int));
            assert(sa[0] == x && sb[0] == y);
        }
        if x != y {
            return x < y;
        }
        i = i + 1;
    }
    i == la
}

impl Registry {
    /// Every name of the namespace, in lexicographic order.
    pub fn list(&self) -> (r: Vec<String>)
        requires
            self.wf(),
        ensures
            sorted_names(views(r@)),
            views(r@).len() == self@.len(),
            forall|x: Seq<char>| views(r@).contains(x) <==> self@.contains(x),
            views(r@).no_duplicates(),
    {
        let mut out: Vec<String> = Vec::new();
        let mut k: usize = 0;
        while k < self.names.len()
            invariant
                self.wf(),
                k <= self@.len(),
                sorted_names(views(out@)),
                views(out@).len() == k,
                forall|x: Seq<char>| views(out@).contains(x) <==> self@.subrange(0, k as int).contains(x),
                views(out@).no_duplicates(),
            decreases self@.len() - k,
        {
            let name = self.names[k].clone();
            let mut p: usize = 0;
            while p < out.len() && str_le(out[p].as_str(), name.as_str())
                invariant
                    p <= out@.len(),
                    forall|q: int| 0 <= q < p ==> lex_le(views(out@)[q], name@),
                decreases out@.len() - p,
            {
                p = p + 1;
            }
            let ghost prev = views(out@);
            out.insert(p, name);
            proof {
                let now = views(out@);
                assert(now =~= prev.insert(p as int, name@));
                if p < prev.len() {
                    lemma_lex_total(prev[p as int], name@);
                }
                assert forall|i: int, j: int| 0 <= i < j < now.len() implies lex_le(#[trigger] now[i], #[trigger] now[j]) by {
                    if j == p {
                    } else if i == p {
                        assert(now[j] == prev[j - 1]);
                        if j - 1 > p {
                            lemma_lex_trans(name@, prev[p as int], prev[j - 1]);
                        }
                    } else if i < p && j > p {
                        assert(now[j] == prev[j - 1]);
                    } else if i > p {
                        assert(now[i] == prev[i - 1]);
                        assert(now[j] == prev[j - 1]);
                    }
                }
                assert(self@.subrange(0, k + 1) =~= self@.subrange(0, k as int).push(name@));
                assert(self@[k as int] == name@);
                assert(!prev.contains(name@)) by {
                    if prev.contains(name@) {
                        let i = choose|i: int| 0 <= i < k && #[trigger] self@.subrange(0, k as int)[i] == name@;
                        assert(self@[i] == self@[k as int]);
                    }
                }
                assert forall|x: Seq<char>| now.contains(x) <==> self@.subrange(0, k + 1).contains(x) by {
                    if now.contains(x) {
                        let i = choose|i: int| 0 <= i < now.len() && now[i] == x;
                        if i < p {
                            assert(prev[i] == x);
                            assert(prev.contains(x));
                        } else if i > p {
                            assert(prev[i - 1] == x);
                            assert(prev.contains(x));
                        }
                        if x != name@ {
                            let i2 = choose|i2: int| 0 <= i2 < k && #[trigger] self@.subrange(0, k as int)[i2] == x;
                            assert(self@.subrange(0, k + 1)[i2] == x);
                        } else {
                            assert(self@.subrange(0, k + 1)[k as int] == x);
                        }
                    }
                    if self@.subrange(0, k + 1).contains(x) {
                        if x == name@ {
                            assert(now[p as int] == x);
                        } else {
                            let i = choose|i: int| 0 <= i < k + 1 && #[trigger] self@.subrange(0, k + 1)[i] == x;
                            assert(self@.subrange(0, k as int)[i] == x);
                            assert(prev.contains(x));
                            let q = choose|q: int| 0 <= q < prev.len() && prev[q] == x;
                            if q < p {
                                assert(now[q] == x);
                            } else {
                                assert(now[q + 1] == x);
                            }
                        }
                    }
                }
                assert forall|i: int, j: int| 0 <= i < now.len() && 0 <= j < now.len() && i != j implies now[i] != now[j] by {
                    if i == p && j != p {
                        let jj = if j < p { j } else { j - 1 };
                        assert(now[j] == prev[jj]);
                        assert(prev.contains(prev[jj]));
                    } else if j == p && i != p {
                        let ii = if i < p { i } else { i - 1 };
                        assert(now[i] == prev[ii]);
                        assert(prev.contains(prev[ii]));
                    } else if i != p && j != p {
                        let ii = if i < p { i } else { i - 1 };
                        let jj = if j < p { j } else { j - 1 };
                        assert(now[i] == prev[ii]);
                        assert(now[j] == prev[jj]);
                    }
                }
            }
            k = k + 1;
        }
        assert(self@.subrange(0, self@.len() as int) =~= self@);
        out
    }
}

} // verus!
