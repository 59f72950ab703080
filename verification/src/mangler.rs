//! The Mangler: owner of the subscription set, the reverse key map and
//! the external watcher handle.
//!
//! It consumes subscribe requests (one per cache read) and classified
//! change events, and produces the batch of cache keys that each event
//! invalidates.  Its single-threaded state keeps subscribe requests and
//! invalidation resolution strictly serialized.

use vstd::prelude::*;

use notify::Watcher;

use crate::classify::ChangeEvent;
use crate::classify::ChangeEventView;
use crate::classify::lemma_paths_view_push;
use crate::classify::paths_view;
use crate::paths::AbsPath;
use crate::paths::CacheKey;
use crate::paths::is_prefix;
use crate::trm::ReverseKeyMap;
use crate::trm::keys_view;
use crate::trm::lemma_keys_view_add;
use crate::wset::WatchSet;

verus! {

/// External watcher handle; its value is opaque here.
#[verifier::external_type_specification]
#[verifier::external_body]
pub struct ExWatcher(notify::RecommendedWatcher);

/// Outcome of one registration attempt with the external watcher.
#[derive(Clone, Copy)]
pub enum WatchOutcome {
    /// The path was registered.
    Registered,
    /// The path does not currently exist.
    NotFound,
    /// Registration failed for another, transient reason.
    Failed,
}

/// Relies on notify::Watcher::watch (non-recursive): asks the OS watcher
/// to register the path, and reads off the error kind that tells a
/// missing path from any other failure.  Nothing is assumed about the
/// outcome: it depends on the state of the filesystem.
#[verifier::external_body]
fn watch_path(w: &mut notify::RecommendedWatcher, p: &AbsPath) -> (r: WatchOutcome) {
    let mut s = String::from("/");
    for (i, comp) in p.components.iter().enumerate() {
        if i > 0 {
            s.push('/');
        }
        s.push_str(&String::from_utf8_lossy(comp));
    }
    match w.watch(std::path::Path::new(&s), notify::RecursiveMode::NonRecursive) {
        Ok(()) => WatchOutcome::Registered,
        Err(e) => match e.kind {
            notify::ErrorKind::PathNotFound => WatchOutcome::NotFound,
            _ => WatchOutcome::Failed,
        },
    }
}

/// Relies on notify::Watcher::unwatch: drops the path's registration with
/// the OS watcher.  Reports whether the call succeeded; nothing more is
/// assumed of it.
#[verifier::external_body]
fn unwatch_path(w: &mut notify::RecommendedWatcher, p: &AbsPath) -> (r: bool) {
    let mut s = String::from("/");
    for (i, comp) in p.components.iter().enumerate() {
        if i > 0 {
            s.push('/');
        }
        s.push_str(&String::from_utf8_lossy(comp));
    }
    w.unwatch(std::path::Path::new(&s)).is_ok()
}

/// Whether the event path at index `j` selects path `p`: a direct event
/// path selects `p` only when equal to it, an indirect one when it is an
/// ancestor of (or equal to) `p`.
pub open spec fn sel_at(ev: ChangeEventView, j: int, p: Seq<Seq<u8>>) -> bool {
    if ev.is_direct {
        ev.paths[j] == p
    } else {
        is_prefix(ev.paths[j], p)
    }
}

/// Whether the change event selects path `p` for invalidation.
pub open spec fn selects(ev: ChangeEventView, p: Seq<Seq<u8>>) -> bool {
    exists|j: int| 0 <= j < ev.paths.len() && #[trigger] sel_at(ev, j, p)
}

/// Whether the event invalidates cache key `k`: some selected path maps
/// to `k` in the reverse key map.
pub open spec fn invalidated_key(trm: ReverseKeyMap, ev: ChangeEventView, k: Seq<u8>) -> bool {
    exists|q: Seq<Seq<u8>>| #![trigger trm.maps(q, k)] selects(ev, q) && trm.maps(q, k)
}

/// Whether some path of the prefix `sel` maps to key `k`.
pub open spec fn batch_covers(trm: ReverseKeyMap, sel: Seq<Seq<Seq<u8>>>, k: Seq<u8>) -> bool {
    exists|q: Seq<Seq<u8>>| #![trigger trm.maps(q, k)] sel.contains(q) && trm.maps(q, k)
}


/// One registration attempt: the candidate path handed to the external
/// watcher and the outcome the watcher reported for it.
pub struct Attempt {
    pub path: AbsPath,
    pub outcome: WatchOutcome,
}

/// Ghost form of a registration attempt.
pub struct AttemptView {
    pub path: Seq<Seq<u8>>,
    pub outcome: WatchOutcome,
}

impl View for Attempt {
    type V = AttemptView;

    open spec fn view(&self) -> AttemptView {
        (AttemptView { path: self.path@, outcome: self.outcome })
    }
}

/// An attempt list as a sequence of ghost attempts.
pub open spec fn attempts_view(v: Seq<Attempt>) -> Seq<AttemptView> {
    Seq::new(v.len(), |i: int| v[i]@)
}

/// Appending an attempt commutes with taking the view.
pub proof fn lemma_attempts_view_push(pre: Seq<Attempt>, x: Attempt)
    ensures
        attempts_view(pre.push(x)) =~= attempts_view(pre).push(x@),
{
    assert forall|j: int| 0 <= j <= pre.len() implies attempts_view(pre.push(x))[j]
        == attempts_view(pre).push(x@)[j] by {
        if j < pre.len() {
            assert(pre.push(x)[j] == pre[j]);
        } else {
            assert(pre.push(x)[j] == x);
        }
    }
}

/// Whether some attempt of the list names path `q`.
pub open spec fn attempted_path(attempted: Seq<AttemptView>, q: Seq<Seq<u8>>) -> bool {
    exists|a: int| 0 <= a < attempted.len() && (#[trigger] attempted[a]).path == q
}

/// Whether an attempt on the parent directory of `cpath` found the path
/// absent.
pub open spec fn parent_not_found(attempted: Seq<AttemptView>, cpath: Seq<Seq<u8>>) -> bool {
    &&& cpath.len() > 0
    &&& exists|a: int|
        0 <= a < attempted.len() && (#[trigger] attempted[a]).path == cpath.drop_last()
            && attempted[a].outcome == WatchOutcome::NotFound
}

/// The state change of one subscribe request for canonical path `cpath`
/// read as `key`, with `attempted` the registration attempts handed to
/// the external watcher, in order, each with the outcome the watcher
/// reported.
pub open spec fn subscribe_transition(
    pre: Mangler,
    post: Mangler,
    cpath: Seq<Seq<u8>>,
    key: Seq<u8>,
    attempted: Seq<AttemptView>,
) -> bool {
    // the subscription set only grows, by the path and its parent at most
    &&& forall|q: Seq<Seq<u8>>| pre.wset.has(q) ==> post.wset.has(q)
    &&& forall|q: Seq<Seq<u8>>|
        post.wset.has(q) ==> pre.wset.has(q) || q == cpath || (cpath.len() > 0 && q
            == cpath.drop_last())
    // the key is recorded exactly when the path ends up subscribed
    &&& post.wset.has(cpath) ==> (forall|q: Seq<Seq<u8>>, k: Seq<u8>|
        post.trm.maps(q, k) <==> (pre.trm.maps(q, k) || (q == cpath && k == key)))
    &&& post.wset.has(cpath) ==> (forall|q: Seq<Seq<u8>>|
        post.trm.has_path(q) <==> (pre.trm.has_path(q) || q == cpath))
    &&& !post.wset.has(cpath) ==> post.trm == pre.trm
    // registration is attempted only for the two candidates, and only
    // when not yet subscribed
    &&& forall|a: int|
        0 <= a < attempted.len() ==> !pre.wset.has((#[trigger] attempted[a]).path) && (
        attempted[a].path == cpath || (cpath.len() > 0 && attempted[a].path
            == cpath.drop_last()))
    // each candidate is attempted at most once, the parent first
    &&& forall|a: int, b: int|
        0 <= a < b < attempted.len() ==> (#[trigger] attempted[a]).path != (
        #[trigger] attempted[b]).path
    &&& attempted.len() == 2 ==> (cpath.len() > 0 && attempted[0].path == cpath.drop_last()
        && attempted[1].path == cpath)
    // a registration succeeds exactly when its path ends up subscribed:
    // an attempt that found the path absent or failed transiently leaves
    // its path out of the set
    &&& forall|a: int|
        0 <= a < attempted.len() ==> ((#[trigger] attempted[a]).outcome
            == WatchOutcome::Registered <==> post.wset.has(attempted[a].path))
    // everything newly subscribed was attempted
    &&& forall|q: Seq<Seq<u8>>|
        post.wset.has(q) && !pre.wset.has(q) ==> attempted_path(attempted, q)
    // an unsubscribed parent is always attempted
    &&& (cpath.len() > 0 && !pre.wset.has(cpath.drop_last())) ==> attempted_path(
        attempted,
        cpath.drop_last(),
    )
    // with no parent attempt in the way, an unsubscribed path is always
    // attempted
    &&& (!pre.wset.has(cpath) && (cpath.len() == 0 || pre.wset.has(cpath.drop_last())))
        ==> attempted_path(attempted, cpath)
    // the path is attempted unless the parent attempt found it absent
    &&& (!pre.wset.has(cpath) && !attempted_path(attempted, cpath)) ==> parent_not_found(
        attempted,
        cpath,
    )
    // a missing parent rolls the whole request back: the path is not
    // attempted and the subscription set gains nothing
    &&& parent_not_found(attempted, cpath) ==> (!attempted_path(attempted, cpath) && (forall|
        q: Seq<Seq<u8>>,
    |
        post.wset.has(q) <==> pre.wset.has(q)))
}

/// The state change of resolving one classified change event, with
/// `batch` the set of cache keys the event invalidates.
pub open spec fn handle_transition(
    pre: Mangler,
    post: Mangler,
    ev: ChangeEventView,
    batch: Seq<Seq<u8>>,
) -> bool {
    &&& forall|p: Seq<Seq<u8>>|
        #![trigger post.wset.has(p)]
        #![trigger pre.wset.has(p)]
        post.wset.has(p) <==> (pre.wset.has(p) && !selects(ev, p))
    &&& forall|q: Seq<Seq<u8>>|
        #![trigger post.trm.has_path(q)]
        #![trigger pre.trm.has_path(q)]
        post.trm.has_path(q) <==> (pre.trm.has_path(q) && !selects(ev, q))
    &&& forall|q: Seq<Seq<u8>>, k: Seq<u8>|
        #![trigger post.trm.maps(q, k)]
        #![trigger pre.trm.maps(q, k)]
        post.trm.maps(q, k) <==> (pre.trm.maps(q, k) && !selects(ev, q))
    &&& forall|k: Seq<u8>|
        #![trigger batch.contains(k)]
        #![trigger invalidated_key(pre.trm, ev, k)]
        batch.contains(k) <==> invalidated_key(pre.trm, ev, k)
}

/// Whether the change event selects path `p`, executably.
pub fn event_selects(p: &AbsPath, ev: &ChangeEvent) -> (r: bool)
    ensures
        r == selects(ev@, p@),
{
    let mut j: usize = 0;
    while j < ev.paths.len()
        invariant
            j <= ev.paths@.len(),
            forall|a: int| 0 <= a < j ==> !sel_at(ev@, a, p@),
        decreases ev.paths@.len() - j,
    {
        let hit = if ev.is_direct {
            ev.paths[j].eq_path(p)
        } else {
            p.starts_with(&ev.paths[j])
        };
        if hit {
            proof {
                assert(sel_at(ev@, j as int, p@));
            }
            return true;
        }
        proof {
            assert(!sel_at(ev@, j as int, p@));
        }
        j += 1;
    }
    false
}

/// The invalidation-tracking state: the watcher handle, the subscription
/// set and the reverse key map, all owned by one background context.
pub struct Mangler {
    pub watcher: notify::RecommendedWatcher,
    pub wset: WatchSet,
    pub trm: ReverseKeyMap,
}

impl Mangler {
    /// Well-formed: both structures are well-formed and every tracked
    /// path is subscribed.
    pub open spec fn wf(self) -> bool {
        &&& self.wset.wf()
        &&& self.trm.wf()
        &&& forall|q: Seq<Seq<u8>>| #[trigger] self.trm.has_path(q) ==> self.wset.has(q)
    }

    /// A fresh Mangler around an external watcher handle: nothing is
    /// subscribed and nothing is tracked.
    pub fn new(watcher: notify::RecommendedWatcher) -> (r: Mangler)
        ensures
            r.wf(),
            forall|q: Seq<Seq<u8>>| !r.wset.has(q),
            forall|q: Seq<Seq<u8>>| !r.trm.has_path(q),
            forall|q: Seq<Seq<u8>>, k: Seq<u8>| !r.trm.maps(q, k),
    {
        Mangler { watcher, wset: WatchSet::new(), trm: ReverseKeyMap::new() }
    }

    /// Handle a subscribe request for the canonical path `cpath`, read as
    /// cache key `key`: attempt to register the parent directory and the
    /// path itself, each only when not yet subscribed, insert each
    /// candidate exactly when its registration succeeded, and record the
    /// key when the path ends up subscribed.  A missing parent stops the
    /// request: nothing is added and a later read retries; any other
    /// registration failure withholds only that candidate.
    ///
    /// Returns the registration attempts handed to the external watcher,
    /// in order, each with its outcome: only paths not subscribed before
    /// the call, so a subscribed path is never registered twice.
    pub fn subscribe_path(&mut self, cpath: &AbsPath, key: &CacheKey) -> (attempted: Vec<Attempt>)
        requires
            old(self).wf(),
        ensures
            final(self).wf(),
            subscribe_transition(
                *old(self),
                *final(self),
                cpath@,
                key@,
                attempts_view(attempted@),
            ),
    {
        let mut attempted: Vec<Attempt> = Vec::new();
        let mut stop = false;
        let parent = cpath.parent();
        proof {
            if cpath@.len() > 0 {
                assert(cpath@.drop_last().len() < cpath@.len());
                assert(cpath@ != cpath@.drop_last());
            }
        }
        match parent {
            Option::None => {},
            Option::Some(par) => {
                if !self.wset.contains(&par) {
                    let out = watch_path(&mut self.watcher, &par);
                    let ghost pre_att = attempted@;
                    let att = Attempt { path: par.clone_path(), outcome: out };
                    attempted.push(att);
                    proof {
                        lemma_attempts_view_push(pre_att, att);
                        assert(attempts_view(attempted@)[0].path == par@);
                        assert(attempts_view(attempted@)[0].outcome == out);
                        assert(attempted_path(attempts_view(attempted@), par@));
                    }
                    match out {
                        WatchOutcome::Registered => {
                            self.wset.insert(par);
                        },
                        WatchOutcome::NotFound => {
                            stop = true;
                        },
                        WatchOutcome::Failed => {},
                    }
                }
            },
        }
        if !stop && !self.wset.contains(cpath) {
            let out = watch_path(&mut self.watcher, cpath);
            let ghost pre_att = attempted@;
            let att = Attempt { path: cpath.clone_path(), outcome: out };
            attempted.push(att);
            proof {
                lemma_attempts_view_push(pre_att, att);
                assert(attempts_view(attempted@)[pre_att.len() as int].path == cpath@);
                assert(attempts_view(attempted@)[pre_att.len() as int].outcome == out);
                assert(attempted_path(attempts_view(attempted@), cpath@));
                assert forall|a: int|
                    0 <= a < pre_att.len() implies attempts_view(attempted@)[a] == attempts_view(
                    pre_att,
                )[a] by {}
            }
            match out {
                WatchOutcome::Registered => {
                    self.wset.insert(cpath.clone_path());
                },
                WatchOutcome::NotFound => {},
                WatchOutcome::Failed => {},
            }
        }
        if self.wset.contains(cpath) {
            self.trm.record(cpath, key.clone_key());
        }
        attempted
    }

    /// Resolve a classified change event: every subscribed path the event
    /// selects is removed from the subscription set, dropped from the
    /// external watcher, and its recorded keys are taken out; the
    /// returned batch holds exactly the cache keys the event
    /// invalidates.  An event selecting no subscribed path changes
    /// nothing and yields an empty batch.
    pub fn handle_modev(&mut self, ev: &ChangeEvent) -> (batch: Vec<CacheKey>)
        requires
            old(self).wf(),
        ensures
            final(self).wf(),
            handle_transition(*old(self), *final(self), ev@, keys_view(batch@)),
    {
        // Collect the subscribed paths the event selects.
        let mut selected: Vec<AbsPath> = Vec::new();
        let mut i: usize = 0;
        while i < self.wset.paths.len()
            invariant
                *self == *old(self),
                old(self).wf(),
                i <= self.wset.paths@.len(),
                forall|a: int|
                    0 <= a < selected@.len() ==> (old(self).wset.has(
                        #[trigger] paths_view(selected@)[a],
                    ) && selects(ev@, paths_view(selected@)[a])),
                forall|j: int|
                    0 <= j < i && selects(ev@, #[trigger] self.wset.at(j)) ==> paths_view(
                        selected@,
                    ).contains(self.wset.at(j)),
            decreases self.wset.paths@.len() - i,
        {
            if event_selects(&self.wset.paths[i], ev) {
                let ghost pre_sel = selected@;
                let pc = self.wset.paths[i].clone_path();
                selected.push(pc);
                proof {
                    lemma_paths_view_push(pre_sel, pc);
                    assert(paths_view(selected@)[pre_sel.len() as int] == self.wset.at(i as int));
                    assert(self.wset.has(self.wset.at(i as int)));
                    assert forall|q: Seq<Seq<u8>>|
                        paths_view(pre_sel).contains(q) implies paths_view(selected@).contains(
                        q,
                    ) by {
                        let a = choose|a: int|
                            0 <= a < paths_view(pre_sel).len() && paths_view(pre_sel)[a] == q;
                        assert(paths_view(selected@)[a] == q);
                    }
                }
            }
            i += 1;
        }
        proof {
            assert forall|p: Seq<Seq<u8>>|
                paths_view(selected@).contains(p) <==> (old(self).wset.has(p) && selects(
                    ev@,
                    p,
                )) by {
                if old(self).wset.has(p) && selects(ev@, p) {
                    let j = choose|j: int|
                        0 <= j < self.wset.paths@.len() && self.wset.at(j) == p;
                    assert(paths_view(selected@).contains(self.wset.at(j)));
                }
            }
        }
        // Remove each selected path, drop its registration, and take its
        // keys into the outgoing batch.
        let ghost sel = paths_view(selected@);
        let mut batch: Vec<CacheKey> = Vec::new();
        let mut j: usize = 0;
        proof {
            assert(sel.subrange(0, 0) =~= Seq::<Seq<Seq<u8>>>::empty());
            assert(keys_view(batch@) =~= Seq::<Seq<u8>>::empty());
        }
        while j < selected.len()
            invariant
                self.wf(),
                old(self).wf(),
                j <= selected@.len(),
                sel == paths_view(selected@),
                forall|p: Seq<Seq<u8>>|
                    sel.contains(p) <==> (old(self).wset.has(p) && selects(ev@, p)),
                forall|p: Seq<Seq<u8>>|
                    self.wset.has(p) <==> (old(self).wset.has(p) && !sel.subrange(
                        0,
                        j as int,
                    ).contains(p)),
                forall|q: Seq<Seq<u8>>|
                    self.trm.has_path(q) <==> (old(self).trm.has_path(q) && !sel.subrange(
                        0,
                        j as int,
                    ).contains(q)),
                forall|q: Seq<Seq<u8>>, k: Seq<u8>|
                    self.trm.maps(q, k) <==> (old(self).trm.maps(q, k) && !sel.subrange(
                        0,
                        j as int,
                    ).contains(q)),
                forall|k: Seq<u8>|
                    keys_view(batch@).contains(k) <==> batch_covers(
                        old(self).trm,
                        sel.subrange(0, j as int),
                        k,
                    ),
            decreases selected@.len() - j,
        {
            let p = &selected[j];
            let ghost prefix = sel.subrange(0, j as int);
            let ghost prefix1 = sel.subrange(0, j as int + 1);
            proof {
                assert(prefix1 =~= prefix.push(sel[j as int]));
                assert(sel[j as int] == p@);
                assert forall|q: Seq<Seq<u8>>|
                    prefix1.contains(q) <==> (prefix.contains(q) || q == p@) by {
                    if prefix1.contains(q) {
                        let a = choose|a: int| 0 <= a < prefix1.len() && prefix1[a] == q;
                        if a < prefix.len() {
                            assert(prefix[a] == q);
                        }
                    }
                    if prefix.contains(q) {
                        let a = choose|a: int| 0 <= a < prefix.len() && prefix[a] == q;
                        assert(prefix1[a] == q);
                    }
                    if q == p@ {
                        assert(prefix1[j as int] == q);
                    }
                }
                assert(sel.contains(p@));
            }
            let removed = self.wset.remove(p);
            if removed {
                let _ok = unwatch_path(&mut self.watcher, p);
                let mut taken = self.trm.take(p);
                let ghost pre_batch = batch@;
                let ghost taken_snap = taken@;
                batch.append(&mut taken);
                proof {
                    lemma_keys_view_add(pre_batch, taken_snap);
                    assert(!prefix.contains(p@));
                    assert forall|k: Seq<u8>|
                        keys_view(batch@).contains(k) <==> batch_covers(
                            old(self).trm,
                            prefix1,
                            k,
                        ) by {
                        if keys_view(batch@).contains(k) {
                            let a = choose|a: int|
                                0 <= a < keys_view(batch@).len() && keys_view(batch@)[a] == k;
                            if a < keys_view(pre_batch).len() {
                                assert(keys_view(pre_batch)[a] == k);
                                assert(keys_view(pre_batch).contains(k));
                                let q = choose|q: Seq<Seq<u8>>|
                                    prefix.contains(q) && #[trigger] old(self).trm.maps(q, k);
                                assert(prefix1.contains(q));
                            } else {
                                assert(keys_view(taken_snap)[a - keys_view(
                                    pre_batch,
                                ).len()] == k);
                                assert(keys_view(taken_snap).contains(k));
                                assert(old(self).trm.maps(p@, k));
                                assert(prefix1.contains(p@));
                            }
                        }
                        if batch_covers(old(self).trm, prefix1, k) {
                            let q = choose|q: Seq<Seq<u8>>|
                                prefix1.contains(q) && #[trigger] old(self).trm.maps(q, k);
                            if prefix.contains(q) {
                                assert(batch_covers(old(self).trm, prefix, k));
                                assert(keys_view(pre_batch).contains(k));
                                let a = choose|a: int|
                                    0 <= a < keys_view(pre_batch).len() && keys_view(
                                        pre_batch,
                                    )[a] == k;
                                assert(keys_view(batch@)[a] == k);
                            } else {
                                assert(q == p@);
                                assert(keys_view(taken_snap).contains(k));
                                let a = choose|a: int|
                                    0 <= a < keys_view(taken_snap).len() && keys_view(
                                        taken_snap,
                                    )[a] == k;
                                assert(keys_view(batch@)[a + keys_view(pre_batch).len()] == k);
                            }
                        }
                    }
                }
            } else {
                proof {
                    assert(old(self).wset.has(p@));
                    assert(prefix.contains(p@));
                    assert forall|k: Seq<u8>|
                        batch_covers(old(self).trm, prefix1, k) <==> batch_covers(
                            old(self).trm,
                            prefix,
                            k,
                        ) by {
                        if batch_covers(old(self).trm, prefix1, k) {
                            let q = choose|q: Seq<Seq<u8>>|
                                prefix1.contains(q) && #[trigger] old(self).trm.maps(q, k);
                            assert(prefix.contains(q));
                        }
                        if batch_covers(old(self).trm, prefix, k) {
                            let q = choose|q: Seq<Seq<u8>>|
                                prefix.contains(q) && #[trigger] old(self).trm.maps(q, k);
                            assert(prefix1.contains(q));
                        }
                    }
                }
            }
            j += 1;
        }
        proof {
            assert(sel.subrange(0, selected@.len() as int) =~= sel);
            assert forall|q: Seq<Seq<u8>>, k: Seq<u8>|
                old(self).trm.maps(q, k) implies old(self).trm.has_path(q) by {
                let a = choose|a: int|
                    0 <= a < old(self).trm.entries@.len() && old(self).trm.path_at(a) == q && old(
                        self,
                    ).trm.keys_at(a).contains(k);
                assert(old(self).trm.path_at(a) == q);
            }
            assert forall|k: Seq<u8>|
                keys_view(batch@).contains(k) <==> invalidated_key(old(self).trm, ev@, k) by {
                if keys_view(batch@).contains(k) {
                    let q = choose|q: Seq<Seq<u8>>|
                        sel.contains(q) && #[trigger] old(self).trm.maps(q, k);
                    assert(selects(ev@, q));
                    assert(invalidated_key(old(self).trm, ev@, k));
                }
                if invalidated_key(old(self).trm, ev@, k) {
                    let q = choose|q: Seq<Seq<u8>>|
                        selects(ev@, q) && #[trigger] old(self).trm.maps(q, k);
                    assert(old(self).trm.has_path(q));
                    assert(old(self).wset.has(q));
                    assert(sel.contains(q));
                    assert(batch_covers(old(self).trm, sel, k));
                }
            }
        }
        batch
    }
}

} // verus!

