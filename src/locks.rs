//! The table of store paths held open by this process, so that a second
//! handle on the same file is refused.
use vstd::prelude::*;

use crate::error::KvError;

verus! {

/// What `acquire` answers for `path` while the paths `held` are held.
pub open spec fn acquire_outcome(held: Set<Seq<char>>, path: Seq<char>) -> Result<(), KvError> {
    if held.contains(path) {
        Err(KvError::Busy)
    } else {
        Ok(())
    }
}

/// Paths whose store is open, each at most once.
pub struct LockTable {
    paths: Vec<String>,
}

impl LockTable {
    /// The paths held.
    pub closed spec fn held(&self) -> Set<Seq<char>> {
        Set::new(|p: Seq<char>| exists|i: int| 0 <= i < self.paths@.len() && (#[trigger] self.paths@[i])@ == p)
    }

    /// Where in the table `path` stands.
    fn position(&self, path: &String) -> (r: Option<usize>)
        ensures
            match r {
                Some(i) => i < self.paths@.len() && self.paths@[i as int]@ == path@,
                None => !self.held().contains(path@),
            },
    {
        let mut i: usize = 0;
        while i < self.paths.len()
            invariant
                i <= self.paths@.len(),
                forall|j: int| 0 <= j < i ==> (#[trigger] self.paths@[j])@ != path@,
            decreases self.paths@.len() - i,
        {
            if self.paths[i] == *path {
                return Some(i);
            }
            i = i + 1;
        }
        None
    }

    /// An empty table.
    pub fn new() -> (t: LockTable)
        ensures
            t.held() == Set::<Seq<char>>::empty(),
    {
        let t = LockTable { paths: Vec::new() };
        assert(t.held() =~= Set::<Seq<char>>::empty());
        t
    }

    /// Whether `path` is held.
    pub fn is_held(&self, path: &str) -> (r: bool)
        ensures
            r == self.held().contains(path@),
    {
        let p = path.to_owned();
        self.position(&p).is_some()
    }

    /// Takes `path` for one handle; fails with `Busy`, the table unchanged,
    /// where it is already held.
    pub fn acquire(&mut self, path: &str) -> (r: Result<(), KvError>)
        ensures
            r == acquire_outcome(old(self).held(), path@),
            r is Err <==> old(self).held().contains(path@),
            match r {
                Ok(()) => final(self).held() == old(self).held().insert(path@),
                Err(e) => e == KvError::Busy && final(self).held() == old(self).held(),
            },
    {
        let p = path.to_owned();
        if self.position(&p).is_some() {
            return Err(KvError::Busy);
        }
        let ghost before = self.held();
        self.paths.push(p);
        assert forall|q: Seq<char>| #[trigger] self.held().contains(q) <==> before.insert(path@).contains(q) by {
            if before.contains(q) {
                let i = choose|i: int| 0 <= i < old(self).paths@.len() && (#[trigger] old(self).paths@[i])@ == q;
                assert(self.paths@[i] == old(self).paths@[i]);
            }
            if q == path@ {
                assert(self.paths@[old(self).paths@.len() as int]@ == q);
            }
            if self.held().contains(q) {
                let i = choose|i: int| 0 <= i < self.paths@.len() && (#[trigger] self.paths@[i])@ == q;
                if i < old(self).paths@.len() {
                    assert(self.paths@[i] == old(self).paths@[i]);
                }
            }
        }
        assert(self.held() =~= before.insert(path@));
        Ok(())
    }

    /// Gives `path` up.
    pub fn release(&mut self, path: &str)
        ensures
            final(self).held() == old(self).held().remove(path@),
    {
        let p = path.to_owned();
        let mut kept: Vec<String> = Vec::new();
        let mut i: usize = 0;
        while i < self.paths.len()
            invariant
                i <= self.paths@.len(),
                p@ == path@,
                forall|q: Seq<char>|
                    #[trigger] holds(kept@, kept@.len() as int, q) <==> (q != path@ && holds(
                        self.paths@,
                        i as int,
                        q,
                    )),
            decreases self.paths@.len() - i,
        {
            let ghost k0 = kept@;
            if !(self.paths[i] == p) {
                kept.push(self.paths[i].clone());
            }
            assert forall|q: Seq<char>|
                #[trigger] holds(kept@, kept@.len() as int, q) <==> (q != path@ && holds(
                    self.paths@,
                    i + 1,
                    q,
                )) by {
                assert(holds(k0, k0.len() as int, q) <==> (q != path@ && holds(self.paths@, i as int, q)));
                if holds(kept@, kept@.len() as int, q) {
                    let j = choose|j: int| 0 <= j < kept@.len() && (#[trigger] kept@[j])@ == q;
                    if j < k0.len() {
                        assert(kept@[j] == k0[j]);
                    }
                }
                if q != path@ && holds(self.paths@, i + 1, q) {
                    let j = choose|j: int| 0 <= j < i + 1 && (#[trigger] self.paths@[j])@ == q;
                    if j < i {
                        let m = choose|m: int| 0 <= m < k0.len() && (#[trigger] k0[m])@ == q;
                        assert(kept@[m] == k0[m]);
                    } else {
                        assert(kept@[k0.len() as int]@ == q);
                    }
                }
            }
            i = i + 1;
        }
        let ghost before = self.held();
        assert forall|q: Seq<char>| before.contains(q) <==> holds(self.paths@, i as int, q) by {}
        self.paths = kept;
        assert forall|q: Seq<char>| self.held().contains(q) <==> holds(kept@, kept@.len() as int, q) by {}
        assert(self.held() =~= before.remove(path@));
    }
}

/// Some entry among the first `n` of `ps` is `q`.
spec fn holds(ps: Seq<String>, n: int, q: Seq<char>) -> bool {
    exists|j: int| 0 <= j < n && j < ps.len() && (#[trigger] ps[j])@ == q
}

/// Once a path is acquired, a second `acquire` of it fails with `Busy`:
/// `after` is the table a successful `acquire(path)` on `before` leaves.
pub proof fn law_second_open_is_busy(before: LockTable, after: LockTable, path: Seq<char>)
    requires
        acquire_outcome(before.held(), path) is Ok,
        after.held() == before.held().insert(path),
    ensures
        acquire_outcome(after.held(), path) == Err::<(), KvError>(KvError::Busy),
{
}

} // verus!
