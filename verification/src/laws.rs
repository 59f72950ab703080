//! Laws of the invalidation logic, stated and proved over the same
//! transition relations that the Mangler's contracts use.

use vstd::prelude::*;

use crate::classify::ChangeEventView;
use crate::mangler::AttemptView;
use crate::mangler::Mangler;
use crate::mangler::WatchOutcome;
use crate::mangler::attempted_path;
use crate::mangler::handle_transition;
use crate::mangler::parent_not_found;
use crate::mangler::invalidated_key;
use crate::mangler::sel_at;
use crate::mangler::selects;
use crate::mangler::subscribe_transition;
use crate::paths::is_prefix;

verus! {

/// No duplicate watches: a subscribe request never attempts to register
/// a path that is already subscribed, and the canonical path stays
/// subscribed afterwards.  Hence over any run of reads without an
/// intervening invalidation of the path, the external watcher is asked
/// to register it at most once.
pub proof fn lemma_no_duplicate_watch(
    pre: Mangler,
    post: Mangler,
    cpath: Seq<Seq<u8>>,
    key: Seq<u8>,
    attempted: Seq<AttemptView>,
)
    requires
        subscribe_transition(pre, post, cpath, key, attempted),
    ensures
        forall|q: Seq<Seq<u8>>| pre.wset.has(q) ==> !attempted_path(attempted, q),
        pre.wset.has(cpath) ==> post.wset.has(cpath),
{
    assert forall|q: Seq<Seq<u8>>| pre.wset.has(q) implies !attempted_path(attempted, q) by {
        if attempted_path(attempted, q) {
            let a = choose|a: int|
                0 <= a < attempted.len() && (#[trigger] attempted[a]).path == q;
            assert(!pre.wset.has(attempted[a].path));
        }
    }
}

/// Successful subscription: a read of a fresh path whose registrations
/// all succeed subscribes the parent directory and the path itself, in
/// that order, and records the cache key for the path.
pub proof fn lemma_successful_subscribe(
    pre: Mangler,
    post: Mangler,
    cpath: Seq<Seq<u8>>,
    key: Seq<u8>,
    attempted: Seq<AttemptView>,
)
    requires
        subscribe_transition(pre, post, cpath, key, attempted),
        forall|a: int|
            0 <= a < attempted.len() ==> (#[trigger] attempted[a]).outcome
                == WatchOutcome::Registered,
        cpath.len() > 0,
        !pre.wset.has(cpath),
        !pre.wset.has(cpath.drop_last()),
    ensures
        post.wset.has(cpath),
        post.wset.has(cpath.drop_last()),
        forall|k: Seq<u8>| post.trm.maps(cpath, k) <==> (pre.trm.maps(cpath, k) || k == key),
{
    assert(attempted_path(attempted, cpath.drop_last()));
    let a = choose|a: int|
        0 <= a < attempted.len() && (#[trigger] attempted[a]).path == cpath.drop_last();
    assert(attempted[a].outcome == WatchOutcome::Registered);
    assert(post.wset.has(cpath.drop_last()));
    if !attempted_path(attempted, cpath) {
        assert(parent_not_found(attempted, cpath));
        let b = choose|b: int|
            0 <= b < attempted.len() && (#[trigger] attempted[b]).path == cpath.drop_last()
                && attempted[b].outcome == WatchOutcome::NotFound;
        assert(attempted[b].outcome == WatchOutcome::Registered);
        assert(false);
    }
    let c = choose|c: int| 0 <= c < attempted.len() && (#[trigger] attempted[c]).path == cpath;
    assert(attempted[c].outcome == WatchOutcome::Registered);
    assert(post.wset.has(cpath));
}

/// Path-not-found rollback: when the parent registration finds the path
/// absent, the whole request rolls back — the path itself is never
/// attempted, the subscription set gains nothing, and no invalidation
/// tracking is established.  A later read of the same key retries.
pub proof fn lemma_missing_parent_rolls_back(
    pre: Mangler,
    post: Mangler,
    cpath: Seq<Seq<u8>>,
    key: Seq<u8>,
    attempted: Seq<AttemptView>,
)
    requires
        subscribe_transition(pre, post, cpath, key, attempted),
        parent_not_found(attempted, cpath),
        !pre.wset.has(cpath),
    ensures
        !attempted_path(attempted, cpath),
        forall|q: Seq<Seq<u8>>| post.wset.has(q) <==> pre.wset.has(q),
        post.trm == pre.trm,
{
    assert(!post.wset.has(cpath));
}

/// Transient-failure policy: a registration attempt that does not
/// succeed — path absent or any other failure — leaves its path out of
/// the subscription set, keeping the at-most-one-registration
/// invariant; a transient failure does not abort the request.
pub proof fn lemma_failed_attempt_withheld(
    pre: Mangler,
    post: Mangler,
    cpath: Seq<Seq<u8>>,
    key: Seq<u8>,
    attempted: Seq<AttemptView>,
    a: int,
)
    requires
        subscribe_transition(pre, post, cpath, key, attempted),
        0 <= a < attempted.len(),
        attempted[a].outcome != WatchOutcome::Registered,
    ensures
        !post.wset.has(attempted[a].path),
{
}

/// Invalidation completeness: when a direct change event names a
/// subscribed path, every cache key recorded for that path is in the
/// invalidation batch, and the path leaves both the subscription set and
/// the reverse key map.  `dedup_keys` then applies each such key exactly
/// once.
pub proof fn lemma_invalidation_completeness(
    pre: Mangler,
    post: Mangler,
    ev: ChangeEventView,
    batch: Seq<Seq<u8>>,
    p: Seq<Seq<u8>>,
    k1: Seq<u8>,
    k2: Seq<u8>,
)
    requires
        handle_transition(pre, post, ev, batch),
        ev.is_direct,
        ev.paths.contains(p),
        pre.trm.maps(p, k1),
        pre.trm.maps(p, k2),
    ensures
        batch.contains(k1),
        batch.contains(k2),
        !post.wset.has(p),
        !post.trm.has_path(p),
        forall|k: Seq<u8>| !post.trm.maps(p, k),
{
    let j = choose|j: int| 0 <= j < ev.paths.len() && ev.paths[j] == p;
    assert(sel_at(ev, j, p));
    assert(selects(ev, p));
    assert(invalidated_key(pre.trm, ev, k1));
    assert(invalidated_key(pre.trm, ev, k2));
}

/// Indirect containment: an indirect event invalidates exactly the
/// subscribed descendants of (or paths equal to) its named paths — every
/// subscribed path below a named ancestor leaves the subscription set,
/// and every subscribed path outside all named subtrees stays.
pub proof fn lemma_indirect_containment(
    pre: Mangler,
    post: Mangler,
    ev: ChangeEventView,
    batch: Seq<Seq<u8>>,
    p: Seq<Seq<u8>>,
)
    requires
        handle_transition(pre, post, ev, batch),
        !ev.is_direct,
        pre.wset.has(p),
    ensures
        post.wset.has(p) <==> (forall|j: int|
            0 <= j < ev.paths.len() ==> !is_prefix(#[trigger] ev.paths[j], p)),
{
    if exists|j: int| 0 <= j < ev.paths.len() && is_prefix(#[trigger] ev.paths[j], p) {
        let j = choose|j: int| 0 <= j < ev.paths.len() && is_prefix(#[trigger] ev.paths[j], p);
        assert(sel_at(ev, j, p));
        assert(selects(ev, p));
        assert(!post.wset.has(p));
    } else {
        assert forall|j: int| 0 <= j < ev.paths.len() implies !sel_at(ev, j, p) by {
            assert(!is_prefix(ev.paths[j], p));
        }
        assert(!selects(ev, p));
        assert(post.wset.has(p));
    }
}

/// Idempotent invalidation: a direct event naming only paths with no
/// active subscription changes neither the subscription set nor the
/// reverse key map, and invalidates no cache key — the external cache's
/// invalidate is never called twice for one subscription.
pub proof fn lemma_idempotent_invalidation(
    pre: Mangler,
    post: Mangler,
    ev: ChangeEventView,
    batch: Seq<Seq<u8>>,
)
    requires
        pre.wf(),
        handle_transition(pre, post, ev, batch),
        ev.is_direct,
        forall|j: int| 0 <= j < ev.paths.len() ==> !pre.wset.has(#[trigger] ev.paths[j]),
    ensures
        forall|p: Seq<Seq<u8>>| post.wset.has(p) <==> pre.wset.has(p),
        forall|q: Seq<Seq<u8>>| post.trm.has_path(q) <==> pre.trm.has_path(q),
        forall|q: Seq<Seq<u8>>, k: Seq<u8>| post.trm.maps(q, k) <==> pre.trm.maps(q, k),
        forall|k: Seq<u8>| !batch.contains(k),
{
    assert forall|p: Seq<Seq<u8>>| pre.wset.has(p) implies !selects(ev, p) by {
        if selects(ev, p) {
            let j = choose|j: int| 0 <= j < ev.paths.len() && #[trigger] sel_at(ev, j, p);
            assert(ev.paths[j] == p);
            assert(!pre.wset.has(ev.paths[j]));
        }
    }
    assert forall|q: Seq<Seq<u8>>| pre.trm.has_path(q) implies !selects(ev, q) by {
        assert(pre.wset.has(q));
    }
    assert forall|p: Seq<Seq<u8>>| post.wset.has(p) <==> pre.wset.has(p) by {
        if pre.wset.has(p) {
            assert(!selects(ev, p));
        }
    }
    assert forall|q: Seq<Seq<u8>>| post.trm.has_path(q) <==> pre.trm.has_path(q) by {
        if pre.trm.has_path(q) {
            assert(!selects(ev, q));
        }
    }
    assert forall|q: Seq<Seq<u8>>, k: Seq<u8>|
        post.trm.maps(q, k) <==> pre.trm.maps(q, k) by {
        if pre.trm.maps(q, k) {
            let a = choose|a: int|
                0 <= a < pre.trm.entries@.len() && pre.trm.path_at(a) == q && pre.trm.keys_at(
                    a,
                ).contains(k);
            assert(pre.trm.path_at(a) == q);
            assert(pre.trm.has_path(q));
            assert(!selects(ev, q));
        }
    }
    assert forall|k: Seq<u8>| !batch.contains(k) by {
        if invalidated_key(pre.trm, ev, k) {
            let q = choose|q: Seq<Seq<u8>>|
                selects(ev, q) && #[trigger] pre.trm.maps(q, k);
            let a = choose|a: int|
                0 <= a < pre.trm.entries@.len() && pre.trm.path_at(a) == q && pre.trm.keys_at(
                    a,
                ).contains(k);
            assert(pre.trm.path_at(a) == q);
            assert(pre.trm.has_path(q));
            assert(!selects(ev, q));
        }
    }
}

/// Debounce coalescing, state side: once a direct event has resolved a
/// path, the further events of the same burst that name only that path
/// change nothing and contribute no keys, so the whole burst amounts to
/// one invalidation batch; `dedup_keys` then applies each key of it
/// exactly once.
pub proof fn lemma_burst_coalesces(
    s0: Mangler,
    s1: Mangler,
    s2: Mangler,
    ev1: ChangeEventView,
    ev2: ChangeEventView,
    b1: Seq<Seq<u8>>,
    b2: Seq<Seq<u8>>,
    p: Seq<Seq<u8>>,
)
    requires
        s1.wf(),
        handle_transition(s0, s1, ev1, b1),
        handle_transition(s1, s2, ev2, b2),
        ev1.is_direct,
        ev2.is_direct,
        ev1.paths.contains(p),
        forall|j: int| 0 <= j < ev2.paths.len() ==> ev2.paths[j] == p,
    ensures
        forall|k: Seq<u8>| !b2.contains(k),
        forall|q: Seq<Seq<u8>>| s2.wset.has(q) <==> s1.wset.has(q),
        forall|q: Seq<Seq<u8>>, k: Seq<u8>| s2.trm.maps(q, k) <==> s1.trm.maps(q, k),
{
    let j = choose|j: int| 0 <= j < ev1.paths.len() && ev1.paths[j] == p;
    assert(sel_at(ev1, j, p));
    assert(selects(ev1, p));
    assert(!s1.wset.has(p));
    assert forall|a: int| 0 <= a < ev2.paths.len() implies !s1.wset.has(
        #[trigger] ev2.paths[a],
    ) by {
        assert(ev2.paths[a] == p);
    }
    lemma_idempotent_invalidation(s1, s2, ev2, b2);
}

} // verus!
