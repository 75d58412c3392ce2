//! The entity registry of one namespace: names unique, identifiers stable.
use vstd::prelude::*;
use crate::sigil::views;

verus! {

/// The most rows a table of the store holds; identifiers stay below it.
pub const MAX_ROWS: usize = 0x7fff_ffff;

/// Entities of one namespace; the entity with identifier `k + 1` is named
/// `names[k]` and was created at `created_at[k]` (seconds since the Unix
/// epoch).
pub struct Registry {
    pub names: Vec<String>,
    pub created_at: Vec<i64>,
}

impl View for Registry {
    type V = Seq<Seq<char>>;

    open spec fn view(&self) -> Seq<Seq<char>> {
        views(self.names@)
    }
}

impl Registry {
    /// No name occurs twice, and identifiers fit the store.
    pub open spec fn wf(&self) -> bool {
        &&& self@.no_duplicates()
        &&& self@.len() <= MAX_ROWS
        &&& self.created_at@.len() == self.names@.len()
    }

    pub fn new() -> (r: Registry)
        ensures
            r.wf(),
            r@ == Seq::<Seq<char>>::empty(),
    {
        let r = Registry { names: Vec::new(), created_at: Vec::new() };
        assert(r@ =~= Seq::<Seq<char>>::empty());
        r
    }

    pub fn len(&self) -> (n: usize)
        ensures
            n == self@.len(),
    {
        self.names.len()
    }

    /// The identifier of `name`, if it is registered.
    pub fn lookup(&self, name: &str) -> (r: Option<i64>)
        requires
            self.wf(),
        ensures
            match r {
                Some(id) => 1 <= id <= self@.len() && self@[id - 1] == name@,
                None => !self@.contains(name@),
            },
    {
        let key = name.to_owned();
        let mut k: usize = 0;
        while k < self.names.len()
            invariant
                self.wf(),
                key@ == name@,
                k <= self@.len(),
                forall|j: int| 0 <= j < k ==> self@[j] != name@,
            decreases self@.len() - k,
        {
            if self.names[k] == key {
                return Some((k + 1) as i64);
            }
            k = k + 1;
        }
        None
    }

    /// Registers `name`, created at `now`, unless it is there, and returns
    /// its identifier.
    pub fn upsert(&mut self, name: &str, now: i64) -> (id: i64)
        requires
            old(self).wf(),
            old(self)@.len() < MAX_ROWS,
        ensures
            final(self).wf(),
            old(self)@.contains(name@) ==> final(self)@ == old(self)@,
            !old(self)@.contains(name@) ==> final(self)@ == old(self)@.push(name@),
            1 <= id <= final(self)@.len(),
            final(self)@[id - 1] == name@,
            final(self).names@.len() >= old(self).names@.len(),
            final(self).names@.subrange(0, old(self).names@.len() as int) == old(self).names@,
            old(self)@.contains(name@) ==> final(self).created_at@ == old(self).created_at@,
            !old(self)@.contains(name@) ==> final(self).created_at@ == old(self).created_at@.push(now),
    {
        match self.lookup(name) {
            Some(id) => {
                proof {
                    assert(self@.contains(name@));
                    assert(self.names@.subrange(0, self.names@.len() as int) =~= self.names@);
                }
                id
            },
            None => {
                let ghost before = self@;
                let ghost raw = self.names@;
                self.names.push(name.to_owned());
                self.created_at.push(now);
                proof {
                    assert(self.names@.subrange(0, raw.len() as int) =~= raw);
                    assert(self@ =~= before.push(name@));
                    assert forall|i: int, j: int|
                        0 <= i < self@.len() && 0 <= j < self@.len() && i != j implies self@[i]
                        != self@[j] by {
                        if j == before.len() as int {
                            assert(!before.contains(name@));
                            if i < before.len() {
                                assert(before.contains(before[i]));
                            }
                        } else if i == before.len() as int {
                            assert(before.contains(before[j]));
                        }
                    }
                }
                self.names.len() as i64
            },
        }
    }
}

} // verus!
