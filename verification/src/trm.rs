//! Reverse key map: canonical watched path to the cache keys whose reads
//! established that subscription.
//!
//! An entry is created by `record` on the first read of a key, grows on
//! further reads, and is taken out whole by `take` when its path is
//! invalidated.

use vstd::prelude::*;

use crate::paths::AbsPath;
use crate::paths::CacheKey;
use crate::paths::bytes_eq;

verus! {

/// One tracked path and the cache keys recorded for it.
pub struct TrackedKeys {
    pub path: AbsPath,
    pub keys: Vec<CacheKey>,
}

/// Map from canonical watched path to the set of cache keys that caused
/// the subscription.
pub struct ReverseKeyMap {
    pub entries: Vec<TrackedKeys>,
}

/// A key list as a sequence of byte sequences.
pub open spec fn keys_view(v: Seq<CacheKey>) -> Seq<Seq<u8>> {
    Seq::new(v.len(), |i: int| v[i]@)
}

/// Whether key list `keys` holds `k`.
pub fn keys_contain(keys: &Vec<CacheKey>, k: &CacheKey) -> (r: bool)
    ensures
        r == keys_view(keys@).contains(k@),
{
    let mut i: usize = 0;
    while i < keys.len()
        invariant
            i <= keys@.len(),
            forall|j: int| 0 <= j < i ==> keys_view(keys@)[j] != k@,
        decreases keys@.len() - i,
    {
        if bytes_eq(&keys[i].bytes, &k.bytes) {
            proof {
                assert(keys_view(keys@)[i as int] == k@);
            }
            return true;
        }
        i += 1;
    }
    proof {
        assert forall|j: int| 0 <= j < keys_view(keys@).len() implies keys_view(keys@)[j] != k@ by {}
    }
    false
}

impl ReverseKeyMap {
    /// The path of the entry at index `i`.
    pub open spec fn path_at(self, i: int) -> Seq<Seq<u8>> {
        self.entries@[i].path@
    }

    /// The keys of the entry at index `i`.
    pub open spec fn keys_at(self, i: int) -> Seq<Seq<u8>> {
        keys_view(self.entries@[i].keys@)
    }

    /// Whether path `p` has an entry.
    pub open spec fn has_path(self, p: Seq<Seq<u8>>) -> bool {
        exists|i: int| #![trigger self.path_at(i)] 0 <= i < self.entries@.len() && self.path_at(i) == p
    }

    /// Whether key `k` is recorded under path `p`.
    pub open spec fn maps(self, p: Seq<Seq<u8>>, k: Seq<u8>) -> bool {
        exists|i: int|
            #![trigger self.path_at(i)]
            0 <= i < self.entries@.len() && self.path_at(i) == p && self.keys_at(i).contains(k)
    }

    /// Well-formed: entry paths are unique, and every key list is
    /// nonempty and free of duplicates.
    pub open spec fn wf(self) -> bool {
        &&& forall|i: int, j: int|
            0 <= i < j < self.entries@.len() ==> self.path_at(i) != self.path_at(j)
        &&& forall|i: int| 0 <= i < self.entries@.len() ==> self.keys_at(i).len() > 0
        &&& forall|i: int|
            0 <= i < self.entries@.len() ==> no_dup_keys(#[trigger] self.keys_at(i))
    }

    /// An empty reverse key map.
    pub fn new() -> (r: ReverseKeyMap)
        ensures
            r.wf(),
            forall|q: Seq<Seq<u8>>| !r.has_path(q),
            forall|q: Seq<Seq<u8>>, k: Seq<u8>| !r.maps(q, k),
    {
        ReverseKeyMap { entries: Vec::new() }
    }

    /// Record that a read of `key` established the subscription on `p`:
    /// `key` joins the key set for `p`, creating the entry if absent.
    pub fn record(&mut self, p: &AbsPath, key: CacheKey)
        requires
            old(self).wf(),
        ensures
            final(self).wf(),
            forall|q: Seq<Seq<u8>>, k: Seq<u8>|
                final(self).maps(q, k) <==> (old(self).maps(q, k) || (q == p@ && k == key@)),
            forall|q: Seq<Seq<u8>>|
                final(self).has_path(q) <==> (old(self).has_path(q) || q == p@),
    {
        let mut i: usize = 0;
        while i < self.entries.len()
            invariant
                *self == *old(self),
                old(self).wf(),
                i <= self.entries@.len(),
                forall|j: int| 0 <= j < i ==> self.path_at(j) != p@,
            decreases self.entries@.len() - i,
        {
            if self.entries[i].path.eq_path(p) {
                let ghost pre = *self;
                let already = keys_contain(&self.entries[i].keys, &key);
                if !already {
                    let mut e = self.entries.remove(i);
                    let ghost pre_keys = e.keys@;
                    e.keys.push(key);
                    proof {
                        lemma_keys_view_push(pre_keys, key);
                    }
                    self.entries.insert(i, e);
                    proof {
                        assert(self.entries@ =~= pre.entries@.update(
                            i as int,
                            self.entries@[i as int],
                        ));
                        lemma_record_existing(pre, *self, i as int, p@, key@);
                    }
                } else {
                    proof {
                        assert(pre.path_at(i as int) == p@);
                        assert(pre.keys_at(i as int).contains(key@));
                        assert(pre.maps(p@, key@));
                        assert forall|q: Seq<Seq<u8>>, k: Seq<u8>|
                            self.maps(q, k) <==> (pre.maps(q, k) || (q == p@ && k
                                == key@)) by {}
                    }
                }
                return ;
            }
            i += 1;
        }
        let ghost pre = *self;
        let entry = TrackedKeys { path: p.clone_path(), keys: vec![key] };
        proof {
            assert(keys_view(entry.keys@) =~= seq![key@]);
        }
        self.entries.push(entry);
        proof {
            lemma_record_fresh(pre, *self, p@, key@);
        }
    }

    /// Remove the entry for `p` and hand back its key set; a path with no
    /// entry yields the empty list.
    pub fn take(&mut self, p: &AbsPath) -> (r: Vec<CacheKey>)
        requires
            old(self).wf(),
        ensures
            final(self).wf(),
            forall|q: Seq<Seq<u8>>, k: Seq<u8>|
                final(self).maps(q, k) <==> (old(self).maps(q, k) && q != p@),
            forall|q: Seq<Seq<u8>>|
                final(self).has_path(q) <==> (old(self).has_path(q) && q != p@),
            forall|k: Seq<u8>| keys_view(r@).contains(k) <==> old(self).maps(p@, k),
            no_dup_keys(keys_view(r@)),
    {
        let mut i: usize = 0;
        while i < self.entries.len()
            invariant
                *self == *old(self),
                old(self).wf(),
                i <= self.entries@.len(),
                forall|j: int| 0 <= j < i ==> self.path_at(j) != p@,
            decreases self.entries@.len() - i,
        {
            if self.entries[i].path.eq_path(p) {
                let ghost pre = *self;
                let e = self.entries.remove(i);
                proof {
                    lemma_take_found(pre, *self, i as int, p@, e);
                }
                return e.keys;
            }
            i += 1;
        }
        proof {
            assert forall|k: Seq<u8>| !self.maps(p@, k) by {
                if self.maps(p@, k) {
                    let j = choose|j: int|
                        0 <= j < self.entries@.len() && self.path_at(j) == p@ && self.keys_at(
                            j,
                        ).contains(k);
                    assert(self.path_at(j) != p@);
                }
            }
            assert(!self.has_path(p@));
            assert(keys_view(Seq::<CacheKey>::empty()) =~= Seq::<Seq<u8>>::empty());
        }
        Vec::new()
    }
}

/// A key list without duplicates.
pub open spec fn no_dup_keys(ks: Seq<Seq<u8>>) -> bool {
    forall|a: int, b: int| 0 <= a < b < ks.len() ==> ks[a] != ks[b]
}

/// Concatenating key lists commutes with taking the view.
pub proof fn lemma_keys_view_add(a: Seq<CacheKey>, b: Seq<CacheKey>)
    ensures
        keys_view(a + b) =~= keys_view(a) + keys_view(b),
{
    assert forall|j: int| 0 <= j < a.len() + b.len() implies keys_view(a + b)[j] == (keys_view(a)
        + keys_view(b))[j] by {
        if j < a.len() {
            assert((a + b)[j] == a[j]);
        } else {
            assert((a + b)[j] == b[j - a.len()]);
        }
    }
}

/// Appending a key commutes with taking the view.
pub proof fn lemma_keys_view_push(pre: Seq<CacheKey>, k: CacheKey)
    ensures
        keys_view(pre.push(k)) =~= keys_view(pre).push(k@),
{
    assert forall|j: int| 0 <= j <= pre.len() implies keys_view(pre.push(k))[j] == keys_view(
        pre,
    ).push(k@)[j] by {
        if j < pre.len() {
            assert(pre.push(k)[j] == pre[j]);
        } else {
            assert(pre.push(k)[j] == k);
        }
    }
}

/// Effect of pushing a new key onto the entry at index `i`.
proof fn lemma_record_existing(pre: ReverseKeyMap, post: ReverseKeyMap, i: int, p: Seq<Seq<u8>>, k: Seq<u8>)
    requires
        pre.wf(),
        0 <= i < pre.entries@.len(),
        pre.path_at(i) == p,
        !pre.keys_at(i).contains(k),
        post.entries@ == pre.entries@.update(i, post.entries@[i]),
        post.entries@[i].path@ == p,
        keys_view(post.entries@[i].keys@) == keys_view(pre.entries@[i].keys@).push(k),
    ensures
        post.wf(),
        forall|q: Seq<Seq<u8>>, kk: Seq<u8>|
            post.maps(q, kk) <==> (pre.maps(q, kk) || (q == p && kk == k)),
        forall|q: Seq<Seq<u8>>| post.has_path(q) <==> (pre.has_path(q) || q == p),
{
    assert(post.entries@.len() == pre.entries@.len());
    assert forall|j: int| 0 <= j < pre.entries@.len() && j != i implies post.entries@[j]
        == pre.entries@[j] by {}
    assert(post.keys_at(i) == pre.keys_at(i).push(k));
    assert(post.keys_at(i).len() == pre.keys_at(i).len() + 1);
    // key list at i stays duplicate-free
    assert forall|a: int, b: int| 0 <= a < b < post.keys_at(i).len() implies post.keys_at(i)[a]
        != post.keys_at(i)[b] by {
        if b < pre.keys_at(i).len() {
            assert(post.keys_at(i)[a] == pre.keys_at(i)[a]);
            assert(post.keys_at(i)[b] == pre.keys_at(i)[b]);
        } else {
            assert(post.keys_at(i)[b] == k);
            assert(post.keys_at(i)[a] == pre.keys_at(i)[a]);
            assert(pre.keys_at(i).contains(k) <==> exists|c: int|
                0 <= c < pre.keys_at(i).len() && pre.keys_at(i)[c] == k);
        }
    }
    assert(no_dup_keys(post.keys_at(i)));
    assert forall|a: int, b: int| 0 <= a < b < post.entries@.len() implies post.path_at(a)
        != post.path_at(b) by {
        assert(post.path_at(a) == pre.path_at(a));
        assert(post.path_at(b) == pre.path_at(b));
        assert(pre.path_at(a) != pre.path_at(b));
    }
    assert forall|j: int|
        0 <= j < post.entries@.len() implies post.keys_at(j).len() > 0 && no_dup_keys(
        #[trigger] post.keys_at(j),
    ) by {
        if j != i {
            assert(post.keys_at(j) == pre.keys_at(j));
            assert(pre.keys_at(j).len() > 0);
            assert(no_dup_keys(pre.keys_at(j)));
        }
    }
    assert forall|q: Seq<Seq<u8>>, kk: Seq<u8>|
        post.maps(q, kk) <==> (pre.maps(q, kk) || (q == p && kk == k)) by {
        if post.maps(q, kk) {
            let j = choose|j: int|
                0 <= j < post.entries@.len() && post.path_at(j) == q && post.keys_at(j).contains(
                    kk,
                );
            if j != i {
                assert(pre.path_at(j) == q && pre.keys_at(j).contains(kk));
                assert(pre.maps(q, kk));
            } else {
                let c = choose|c: int| 0 <= c < post.keys_at(i).len() && post.keys_at(i)[c] == kk;
                if c < pre.keys_at(i).len() {
                    assert(pre.keys_at(i)[c] == kk);
                    assert(pre.keys_at(i).contains(kk));
                    assert(pre.maps(q, kk));
                } else {
                    assert(kk == k && q == p);
                }
            }
        }
        if pre.maps(q, kk) {
            let j = choose|j: int|
                0 <= j < pre.entries@.len() && pre.path_at(j) == q && pre.keys_at(j).contains(kk);
            if j != i {
                assert(post.path_at(j) == q && post.keys_at(j).contains(kk));
            } else {
                let c = choose|c: int| 0 <= c < pre.keys_at(i).len() && pre.keys_at(i)[c] == kk;
                assert(post.path_at(i) == q);
                assert(post.keys_at(i)[c] == kk);
                assert(post.keys_at(i).contains(kk));
            }
            assert(post.maps(q, kk));
        }
        if q == p && kk == k {
            assert(post.path_at(i) == p);
            assert(post.keys_at(i)[pre.keys_at(i).len() as int] == k);
            assert(post.keys_at(i).contains(k));
            assert(post.maps(p, k));
        }
    }
    assert forall|q: Seq<Seq<u8>>| post.has_path(q) <==> (pre.has_path(q) || q == p) by {
        if post.has_path(q) {
            let j = choose|j: int| 0 <= j < post.entries@.len() && post.path_at(j) == q;
            assert(pre.path_at(j) == q);
        }
        if pre.has_path(q) {
            let j = choose|j: int| 0 <= j < pre.entries@.len() && pre.path_at(j) == q;
            assert(post.path_at(j) == q);
        }
        if q == p {
            assert(post.path_at(i) == p);
        }
    }
}

/// Effect of appending a fresh entry for `p` holding exactly `k`.
proof fn lemma_record_fresh(pre: ReverseKeyMap, post: ReverseKeyMap, p: Seq<Seq<u8>>, k: Seq<u8>)
    requires
        pre.wf(),
        !pre.has_path(p),
        post.entries@.len() == pre.entries@.len() + 1,
        forall|j: int| 0 <= j < pre.entries@.len() ==> post.entries@[j] == pre.entries@[j],
        post.path_at(pre.entries@.len() as int) == p,
        post.keys_at(pre.entries@.len() as int) == seq![k],
    ensures
        post.wf(),
        forall|q: Seq<Seq<u8>>, kk: Seq<u8>|
            post.maps(q, kk) <==> (pre.maps(q, kk) || (q == p && kk == k)),
        forall|q: Seq<Seq<u8>>| post.has_path(q) <==> (pre.has_path(q) || q == p),
{
    let n = pre.entries@.len() as int;
    assert(post.keys_at(n).len() == 1);
    assert forall|i: int, j: int| 0 <= i < j < post.entries@.len() implies post.path_at(i)
        != post.path_at(j) by {
        if j < n {
            assert(pre.path_at(i) != pre.path_at(j));
        } else {
            assert(post.path_at(j) == p);
            if post.path_at(i) == p {
                assert(pre.path_at(i) == p);
                assert(pre.has_path(p));
            }
        }
    }
    assert forall|j: int|
        0 <= j < post.entries@.len() implies post.keys_at(j).len() > 0 && no_dup_keys(
        #[trigger] post.keys_at(j),
    ) by {
        if j < n {
            assert(post.keys_at(j) == pre.keys_at(j));
            assert(pre.keys_at(j).len() > 0);
            assert(no_dup_keys(pre.keys_at(j)));
        } else {
            assert(post.keys_at(n).len() == 1);
            assert(no_dup_keys(post.keys_at(n)));
        }
    }
    assert forall|q: Seq<Seq<u8>>, kk: Seq<u8>|
        post.maps(q, kk) <==> (pre.maps(q, kk) || (q == p && kk == k)) by {
        if post.maps(q, kk) {
            let j = choose|j: int|
                0 <= j < post.entries@.len() && post.path_at(j) == q && post.keys_at(j).contains(
                    kk,
                );
            if j < n {
                assert(pre.path_at(j) == q);
                assert(pre.keys_at(j) == post.keys_at(j));
                assert(pre.keys_at(j).contains(kk));
                assert(pre.maps(q, kk));
            } else {
                assert(q == p);
                let c = choose|c: int| 0 <= c < post.keys_at(n).len() && post.keys_at(n)[c] == kk;
                assert(post.keys_at(n)[0] == k);
                assert(kk == k);
            }
        }
        if pre.maps(q, kk) {
            let j = choose|j: int|
                0 <= j < pre.entries@.len() && pre.path_at(j) == q && pre.keys_at(j).contains(kk);
            assert(post.path_at(j) == q && post.keys_at(j).contains(kk));
            assert(post.maps(q, kk));
        }
        if q == p && kk == k {
            assert(post.path_at(n) == p);
            assert(post.keys_at(n)[0] == k);
            assert(post.keys_at(n).contains(k));
            assert(post.maps(p, k));
        }
    }
    assert forall|q: Seq<Seq<u8>>| post.has_path(q) <==> (pre.has_path(q) || q == p) by {
        if post.has_path(q) {
            let j = choose|j: int| 0 <= j < post.entries@.len() && post.path_at(j) == q;
            if j < n {
                assert(pre.path_at(j) == q);
                assert(pre.has_path(q));
            } else {
                assert(q == p);
            }
        }
        if pre.has_path(q) {
            let j = choose|j: int| 0 <= j < pre.entries@.len() && pre.path_at(j) == q;
            assert(post.path_at(j) == q);
        }
        if q == p {
            assert(post.path_at(n) == p);
        }
    }
}

/// Effect of removing the entry at index `i`, whose path is `p`.
proof fn lemma_take_found(pre: ReverseKeyMap, post: ReverseKeyMap, i: int, p: Seq<Seq<u8>>, e: TrackedKeys)
    requires
        pre.wf(),
        0 <= i < pre.entries@.len(),
        pre.path_at(i) == p,
        e == pre.entries@[i],
        post.entries@ == pre.entries@.remove(i),
    ensures
        post.wf(),
        forall|q: Seq<Seq<u8>>, kk: Seq<u8>|
            post.maps(q, kk) <==> (pre.maps(q, kk) && q != p),
        forall|q: Seq<Seq<u8>>| post.has_path(q) <==> (pre.has_path(q) && q != p),
        forall|kk: Seq<u8>| keys_view(e.keys@).contains(kk) <==> pre.maps(p, kk),
        no_dup_keys(keys_view(e.keys@)),
{
    let n = pre.entries@.len() as int;
    assert(post.entries@.len() == n - 1);
    assert(pre.keys_at(i) == keys_view(e.keys@));
    assert(no_dup_keys(pre.keys_at(i)));
    assert forall|j: int| 0 <= j < n - 1 implies post.entries@[j] == (if j < i {
        pre.entries@[j]
    } else {
        pre.entries@[j + 1]
    }) by {}
    assert forall|a: int, b: int| 0 <= a < b < post.entries@.len() implies post.path_at(a)
        != post.path_at(b) by {
        let a2: int = if a < i { a } else { a + 1 };
        let b2: int = if b < i { b } else { b + 1 };
        assert(post.path_at(a) == pre.path_at(a2));
        assert(post.path_at(b) == pre.path_at(b2));
        assert(pre.path_at(a2) != pre.path_at(b2));
    }
    assert forall|j: int| 0 <= j < post.entries@.len() implies post.keys_at(j).len() > 0
        && no_dup_keys(post.keys_at(j)) by {
        let j2: int = if j < i { j } else { j + 1 };
        assert(post.keys_at(j) == pre.keys_at(j2));
    }
    assert forall|q: Seq<Seq<u8>>, kk: Seq<u8>|
        post.maps(q, kk) <==> (pre.maps(q, kk) && q != p) by {
        if post.maps(q, kk) {
            let j = choose|j: int|
                0 <= j < post.entries@.len() && post.path_at(j) == q && post.keys_at(j).contains(
                    kk,
                );
            let j2: int = if j < i { j } else { j + 1 };
            assert(pre.path_at(j2) == q && pre.keys_at(j2).contains(kk));
            assert(pre.maps(q, kk));
            if j2 < i {
                assert(pre.path_at(j2) != pre.path_at(i));
            } else {
                assert(pre.path_at(i) != pre.path_at(j2));
            }
            assert(q != p);
        }
        if pre.maps(q, kk) && q != p {
            let j = choose|j: int|
                0 <= j < pre.entries@.len() && pre.path_at(j) == q && pre.keys_at(j).contains(kk);
            assert(j != i);
            if j < i {
                assert(post.path_at(j) == q && post.keys_at(j).contains(kk));
            } else {
                assert(post.path_at(j - 1) == q && post.keys_at(j - 1).contains(kk));
            }
            assert(post.maps(q, kk));
        }
    }
    assert forall|q: Seq<Seq<u8>>| post.has_path(q) <==> (pre.has_path(q) && q != p) by {
        if post.has_path(q) {
            let j = choose|j: int| 0 <= j < post.entries@.len() && post.path_at(j) == q;
            let j2: int = if j < i { j } else { j + 1 };
            assert(pre.path_at(j2) == q);
            if j2 < i {
                assert(pre.path_at(j2) != pre.path_at(i));
            } else {
                assert(pre.path_at(i) != pre.path_at(j2));
            }
        }
        if pre.has_path(q) && q != p {
            let j = choose|j: int| 0 <= j < pre.entries@.len() && pre.path_at(j) == q;
            assert(j != i);
            if j < i {
                assert(post.path_at(j) == q);
            } else {
                assert(post.path_at(j - 1) == q);
            }
        }
    }
    assert forall|kk: Seq<u8>| keys_view(e.keys@).contains(kk) <==> pre.maps(p, kk) by {
        if keys_view(e.keys@).contains(kk) {
            assert(pre.keys_at(i).contains(kk));
            assert(pre.maps(p, kk));
        }
        if pre.maps(p, kk) {
            let j = choose|j: int|
                0 <= j < pre.entries@.len() && pre.path_at(j) == p && pre.keys_at(j).contains(kk);
            // entries are unique, so the witness is the removed entry
            if j < i {
                assert(pre.path_at(j) != pre.path_at(i));
            } else if j > i {
                assert(pre.path_at(i) != pre.path_at(j));
            }
            assert(j == i);
            assert(keys_view(e.keys@).contains(kk));
        }
    }
}

} // verus!

