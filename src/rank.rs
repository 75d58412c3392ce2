//! Ordering of (key, identifier) pairs, highest first.
use vstd::prelude::*;

verus! {

/// `a` ranks strictly above `b`: a higher key, or an equal key and a higher
/// identifier.
pub open spec fn ranks_above(a: (i64, i64), b: (i64, i64)) -> bool {
    a.0 > b.0 || (a.0 == b.0 && a.1 > b.1)
}

/// No element ranks above one that comes before it.
pub open spec fn ranked(s: Seq<(i64, i64)>) -> bool {
    forall|i: int, j: int| 0 <= i < j < s.len() ==> !ranks_above(s[j], s[i])
}

/// The pairs of `v`, highest first.
pub fn rank(v: &Vec<(i64, i64)>) -> (r: Vec<(i64, i64)>)
    ensures
        ranked(r@),
        r@.len() == v@.len(),
        forall|x: (i64, i64)| r@.contains(x) <==> v@.contains(x),
        v@.no_duplicates() ==> r@.no_duplicates(),
{
    let mut out: Vec<(i64, i64)> = Vec::new();
    let mut k: usize = 0;
    while k < v.len()
        invariant
            k <= v@.len(),
            ranked(out@),
            out@.len() == k,
            forall|x: (i64, i64)| out@.contains(x) <==> v@.subrange(0, k as int).contains(x),
            v@.no_duplicates() ==> out@.no_duplicates(),
        decreases v@.len() - k,
    {
        let x = v[k];
        let mut p: usize = 0;
        while p < out.len() && !ranks_above_exec(x, out[p])
            invariant
                p <= out@.len(),
                forall|q: int| 0 <= q < p ==> !ranks_above(x, out@[q]),
            decreases out@.len() - p,
        {
            p = p + 1;
        }
        let ghost prev = out@;
        out.insert(p, x);
        proof {
            assert(out@ == prev.insert(p as int, x));
            assert forall|i: int, j: int| 0 <= i < j < out@.len() implies !ranks_above(
                out@[j],
                out@[i],
            ) by {
                if i < p && j == p {
                } else if i == p && j > p {
                    assert(out@[j] == prev[j - 1]);
                    assert(ranks_above(x, prev[p as int]));
                    if j - 1 > p {
                        assert(!ranks_above(prev[j - 1], prev[p as int]));
                    }
                } else if i < p && j > p {
                    assert(out@[j] == prev[j - 1]);
                } else if i > p {
                    assert(out@[i] == prev[i - 1]);
                    assert(out@[j] == prev[j - 1]);
                }
            }
            assert(v@.subrange(0, k + 1) == v@.subrange(0, k as int).push(x));
            assert forall|y: (i64, i64)| out@.contains(y) <==> v@.subrange(0, k + 1).contains(
                y,
            ) by {
                if out@.contains(y) {
                    let i = choose|i: int| 0 <= i < out@.len() && out@[i] == y;
                    if i < p {
                        assert(prev[i] == y);
                        assert(prev.contains(y));
                    } else if i > p {
                        assert(prev[i - 1] == y);
                        assert(prev.contains(y));
                    }
                    assert(v@.subrange(0, k + 1)[k as int] == x);
                }
                if v@.subrange(0, k + 1).contains(y) {
                    if y == x {
                        assert(out@[p as int] == y);
                    } else {
                        let i = choose|i: int| 0 <= i < k + 1 && #[trigger] v@.subrange(0, k + 1)[i] == y;
                        assert(v@.subrange(0, k as int)[i] == y);
                        assert(prev.contains(y));
                        let q = choose|q: int| 0 <= q < prev.len() && prev[q] == y;
                        if q < p {
                            assert(out@[q] == y);
                        } else {
                            assert(out@[q + 1] == y);
                        }
                    }
                }
            }
            if v@.no_duplicates() {
                assert(!prev.contains(x)) by {
                    if prev.contains(x) {
                        let i = choose|i: int| 0 <= i < k && #[trigger] v@.subrange(0, k as int)[i] == x;
                        assert(v@[i] == v@[k as int]);
                    }
                }
                assert forall|i: int, j: int|
                    0 <= i < out@.len() && 0 <= j < out@.len() && i != j implies out@[i]
                    != out@[j] by {
                    if i == p && j != p {
                        let jj = if j < p { j } else { j - 1 };
                        assert(out@[j] == prev[jj]);
                        assert(prev.contains(prev[jj]));
                    } else if j == p && i != p {
                        let ii = if i < p { i } else { i - 1 };
                        assert(out@[i] == prev[ii]);
                        assert(prev.contains(prev[ii]));
                    } else if i != p && j != p {
                        let ii = if i < p { i } else { i - 1 };
                        let jj = if j < p { j } else { j - 1 };
                        assert(out@[i] == prev[ii]);
                        assert(out@[j] == prev[jj]);
                    }
                }
            }
        }
        k = k + 1;
    }
    assert(v@.subrange(0, v@.len() as int) == v@);
    out
}

fn ranks_above_exec(a: (i64, i64), b: (i64, i64)) -> (r: bool)
    ensures
        r == ranks_above(a, b),
{
    a.0 > b.0 || (a.0 == b.0 && a.1 > b.1)
}

} // verus!
