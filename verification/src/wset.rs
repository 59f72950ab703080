//! Subscription set: the canonical paths currently registered with the
//! external watcher.
//!
//! Membership is idempotent: inserting a member again or removing a
//! non-member is a no-op, so at most one registration is ever held per
//! canonical path.

use vstd::prelude::*;

use crate::paths::AbsPath;

verus! {

/// The set of canonical paths currently registered with the external
/// watcher.
pub struct WatchSet {
    pub paths: Vec<AbsPath>,
}

impl WatchSet {
    /// The member at index `i`, as its component sequence.
    pub open spec fn at(self, i: int) -> Seq<Seq<u8>> {
        self.paths@[i]@
    }

    /// Whether `p` is a member.
    pub open spec fn has(self, p: Seq<Seq<u8>>) -> bool {
        exists|i: int| 0 <= i < self.paths@.len() && self.at(i) == p
    }

    /// Well-formed: no member occurs twice.
    pub open spec fn wf(self) -> bool {
        forall|i: int, j: int| 0 <= i < j < self.paths@.len() ==> self.at(i) != self.at(j)
    }

    /// An empty subscription set.
    pub fn new() -> (r: WatchSet)
        ensures
            r.wf(),
            forall|q: Seq<Seq<u8>>| !r.has(q),
            r.paths@.len() == 0,
    {
        WatchSet { paths: Vec::new() }
    }

    /// How many paths are currently subscribed.
    pub fn len(&self) -> (r: usize)
        ensures
            r == self.paths@.len(),
    {
        self.paths.len()
    }

    /// Whether `p` is currently subscribed.
    pub fn contains(&self, p: &AbsPath) -> (r: bool)
        ensures
            r == self.has(p@),
    {
        let mut i: usize = 0;
        while i < self.paths.len()
            invariant
                i <= self.paths@.len(),
                forall|j: int| 0 <= j < i ==> self.at(j) != p@,
            decreases self.paths@.len() - i,
        {
            if self.paths[i].eq_path(p) {
                proof {
                    assert(self.at(i as int) == p@);
                }
                return true;
            }
            i += 1;
        }
        false
    }

    /// Add `p` unless it is already a member; reports whether it was
    /// added.
    pub fn insert(&mut self, p: AbsPath) -> (added: bool)
        requires
            old(self).wf(),
        ensures
            final(self).wf(),
            added == !old(self).has(p@),
            forall|q: Seq<Seq<u8>>|
                final(self).has(q) <==> (old(self).has(q) || q == p@),
    {
        if self.contains(&p) {
            return false;
        }
        let ghost pre = *self;
        self.paths.push(p);
        proof {
            let n = pre.paths@.len() as int;
            assert forall|j: int| 0 <= j < n implies self.at(j) == pre.at(j) by {
                assert(self.paths@[j] == pre.paths@[j]);
            }
            assert(self.at(n) == p@);
            assert forall|a: int, b: int|
                0 <= a < b < self.paths@.len() implies self.at(a) != self.at(b) by {
                if b < n {
                    assert(pre.at(a) != pre.at(b));
                } else {
                    assert(self.at(b) == p@);
                    if self.at(a) == p@ {
                        assert(pre.at(a) == p@);
                        assert(pre.has(p@));
                    }
                }
            }
            assert forall|q: Seq<Seq<u8>>| self.has(q) <==> (pre.has(q) || q == p@) by {
                if pre.has(q) {
                    let i = choose|i: int| 0 <= i < n && pre.at(i) == q;
                    assert(self.at(i) == q);
                }
                if self.has(q) {
                    let i = choose|i: int|
                        0 <= i < self.paths@.len() && self.at(i) == q;
                    if i < n {
                        assert(pre.at(i) == q);
                    }
                }
            }
        }
        true
    }

    /// Remove `p` if it is a member; reports whether it was removed.
    /// Removing a non-member is a no-op.
    pub fn remove(&mut self, p: &AbsPath) -> (removed: bool)
        requires
            old(self).wf(),
        ensures
            final(self).wf(),
            removed == old(self).has(p@),
            forall|q: Seq<Seq<u8>>|
                final(self).has(q) <==> (old(self).has(q) && q != p@),
    {
        let mut i: usize = 0;
        while i < self.paths.len()
            invariant
                *self == *old(self),
                old(self).wf(),
                i <= self.paths@.len(),
                forall|j: int| 0 <= j < i ==> self.at(j) != p@,
            decreases self.paths@.len() - i,
        {
            if self.paths[i].eq_path(p) {
                let ghost pre = *self;
                self.paths.remove(i);
                proof {
                    let n = pre.paths@.len() as int;
                    assert(pre.at(i as int) == p@);
                    assert(pre.has(p@));
                    assert forall|j: int| 0 <= j < n - 1 implies self.at(j) == (if j < i {
                        pre.at(j)
                    } else {
                        pre.at(j + 1)
                    }) by {
                        assert(self.paths@[j] == pre.paths@.remove(i as int)[j]);
                    }
                    assert forall|q: Seq<Seq<u8>>| self.has(q) <==> (pre.has(q) && q != p@) by {
                        if self.has(q) {
                            let j = choose|j: int|
                                0 <= j < self.paths@.len() && self.at(j) == q;
                            // q sits at an index other than i, so q differs
                            // from p because members are unique.
                            if j < i {
                                assert(pre.at(j) == q);
                                assert(pre.at(j) != pre.at(i as int));
                            } else {
                                assert(pre.at(j + 1) == q);
                                assert(pre.at(i as int) != pre.at(j + 1));
                            }
                            assert(q != p@);
                        }
                        if pre.has(q) && q != p@ {
                            let j = choose|j: int| 0 <= j < n && pre.at(j) == q;
                            if j < i {
                                assert(self.at(j) == q);
                            } else {
                                assert(j != i);
                                assert(self.at(j - 1) == q);
                            }
                        }
                    }
                    assert forall|a: int, b: int|
                        0 <= a < b < self.paths@.len() implies self.at(a) != self.at(b) by {
                        let a2: int = if a < i { a } else { a + 1 };
                        let b2: int = if b < i { b } else { b + 1 };
                        assert(self.at(a) == pre.at(a2));
                        assert(self.at(b) == pre.at(b2));
                        assert(pre.at(a2) != pre.at(b2));
                    }
                }
                return true;
            }
            i += 1;
        }
        proof {
            assert(!self.has(p@));
        }
        false
    }
}

} // verus!
