//! A link table: the set of (entry, entity) pairs of one namespace.
use vstd::prelude::*;

verus! {

pub struct LinkTable {
    pub pairs: Vec<(i64, i64)>,
}

impl View for LinkTable {
    type V = Seq<(i64, i64)>;

    open spec fn view(&self) -> Seq<(i64, i64)> {
        self.pairs@
    }
}

impl LinkTable {
    /// No pair is stored twice.
    pub open spec fn wf(&self) -> bool {
        self@.no_duplicates()
    }

    pub fn new() -> (r: LinkTable)
        ensures
            r.wf(),
            r@ == Seq::<(i64, i64)>::empty(),
    {
        LinkTable { pairs: Vec::new() }
    }

    pub fn len(&self) -> (n: usize)
        ensures
            n == self@.len(),
    {
        self.pairs.len()
    }

    pub fn contains(&self, entry_id: i64, entity_id: i64) -> (r: bool)
        ensures
            r == self@.contains((entry_id, entity_id)),
    {
        let mut k: usize = 0;
        while k < self.pairs.len()
            invariant
                k <= self@.len(),
                forall|j: int| 0 <= j < k ==> self@[j] != (entry_id, entity_id),
            decreases self@.len() - k,
        {
            let p = self.pairs[k];
            if p.0 == entry_id && p.1 == entity_id {
                assert(self@[k as int] == (entry_id, entity_id));
                return true;
            }
            k = k + 1;
        }
        false
    }

    /// Records the pair; a pair already there is left as it is.
    pub fn link(&mut self, entry_id: i64, entity_id: i64)
        requires
            old(self).wf(),
        ensures
            final(self).wf(),
            old(self)@.contains((entry_id, entity_id)) ==> final(self)@ == old(self)@,
            !old(self)@.contains((entry_id, entity_id)) ==> final(self)@ == old(self)@.push(
                (entry_id, entity_id),
            ),
            final(self)@.len() >= old(self)@.len(),
            final(self)@.subrange(0, old(self)@.len() as int) == old(self)@,
    {
        assert(self@.subrange(0, self@.len() as int) =~= self@);
        if !self.contains(entry_id, entity_id) {
            let ghost before = self@;
            self.pairs.push((entry_id, entity_id));
            proof {
                assert(self@.subrange(0, before.len() as int) =~= before);
                assert forall|i: int, j: int|
                    0 <= i < self@.len() && 0 <= j < self@.len() && i != j implies self@[i]
                    != self@[j] by {
                    if j == before.len() as int && i < before.len() {
                        assert(before.contains(before[i]));
                    } else if i == before.len() as int && j < before.len() {
                        assert(before.contains(before[j]));
                    }
                }
            }
        }
    }

    /// The entities linked to `entry_id`, in the order the links were made.
    pub fn entities_for(&self, entry_id: i64) -> (r: Vec<i64>)
        ensures
            forall|x: i64| r@.contains(x) <==> self@.contains((entry_id, x)),
    {
        let mut out: Vec<i64> = Vec::new();
        let mut k: usize = 0;
        while k < self.pairs.len()
            invariant
                k <= self@.len(),
                forall|x: i64|
                    out@.contains(x) <==> exists|j: int|
                        0 <= j < k && #[trigger] self@[j] == (entry_id, x),
            decreases self@.len() - k,
        {
            let p = self.pairs[k];
            let ghost prev = out@;
            if p.0 == entry_id {
                out.push(p.1);
            }
            proof {
                assert forall|x: i64|
                    out@.contains(x) <==> exists|j: int|
                        0 <= j < k + 1 && #[trigger] self@[j] == (entry_id, x) by {
                    if p.0 == entry_id {
                        assert(out@ == prev.push(p.1));
                        if out@.contains(x) {
                            let i = choose|i: int| 0 <= i < out@.len() && out@[i] == x;
                            if i < prev.len() {
                                assert(prev.contains(x));
                            } else {
                                assert(self@[k as int] == (entry_id, x));
                            }
                        }
                        if exists|j: int| 0 <= j < k + 1 && #[trigger] self@[j] == (entry_id, x) {
                            let j = choose|j: int| 0 <= j < k + 1 && #[trigger] self@[j] == (entry_id, x);
                            if j < k {
                                assert(prev.contains(x));
                                let i = choose|i: int| 0 <= i < prev.len() && prev[i] == x;
                                assert(out@[i] == x);
                            } else {
                                assert(out@[prev.len() as int] == x);
                            }
                        }
                    } else {
                        assert(out@ == prev);
                    }
                }
            }
            k = k + 1;
        }
        proof {
            assert forall|x: i64| self@.contains((entry_id, x)) implies out@.contains(x) by {
                let j = choose|j: int| 0 <= j < self@.len() && self@[j] == (entry_id, x);
                assert(self@[j] == (entry_id, x));
            }
        }
        out
    }

    /// The entries linked to `entity_id`, in the order the links were made.
    pub fn entries_for(&self, entity_id: i64) -> (r: Vec<i64>)
        ensures
            forall|e: i64| r@.contains(e) <==> self@.contains((e, entity_id)),
    {
        let mut out: Vec<i64> = Vec::new();
        let mut k: usize = 0;
        while k < self.pairs.len()
            invariant
                k <= self@.len(),
                forall|e: i64|
                    out@.contains(e) <==> exists|j: int|
                        0 <= j < k && #[trigger] self@[j] == (e, entity_id),
            decreases self@.len() - k,
        {
            let p = self.pairs[k];
            let ghost prev = out@;
            if p.1 == entity_id {
                out.push(p.0);
            }
            proof {
                assert forall|e: i64|
                    out@.contains(e) <==> exists|j: int|
                        0 <= j < k + 1 && #[trigger] self@[j] == (e, entity_id) by {
                    if p.1 == entity_id {
                        assert(out@ == prev.push(p.0));
                        if out@.contains(e) {
                            let i = choose|i: int| 0 <= i < out@.len() && out@[i] == e;
                            if i < prev.len() {
                                assert(prev.contains(e));
                            } else {
                                assert(self@[k as int] == (e, entity_id));
                            }
                        }
                        if exists|j: int| 0 <= j < k + 1 && #[trigger] self@[j] == (e, entity_id) {
                            let j = choose|j: int| 0 <= j < k + 1 && #[trigger] self@[j] == (e, entity_id);
                            if j < k {
                                assert(prev.contains(e));
                                let i = choose|i: int| 0 <= i < prev.len() && prev[i] == e;
                                assert(out@[i] == e);
                            } else {
                                assert(out@[prev.len() as int] == e);
                            }
                        }
                    } else {
                        assert(out@ == prev);
                    }
                }
            }
            k = k + 1;
        }
        proof {
            assert forall|e: i64| self@.contains((e, entity_id)) implies out@.contains(e) by {
                let j = choose|j: int| 0 <= j < self@.len() && self@[j] == (e, entity_id);
                assert(self@[j] == (e, entity_id));
            }
        }
        out
    }
}

} // verus!
