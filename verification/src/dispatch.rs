//! The batch-apply step shared by all three consumption disciplines:
//! deduplicate an invalidation batch so that each affected cache key is
//! invalidated exactly once, order-independently.

use vstd::prelude::*;

use crate::paths::CacheKey;
use crate::trm::keys_contain;
use crate::trm::keys_view;
use crate::trm::lemma_keys_view_push;
use crate::trm::no_dup_keys;

verus! {

/// Deduplicate an invalidation batch: the result holds each distinct key
/// of `batch` exactly once (in order of first occurrence), so applying
/// it to the external cache invalidates every key of the batch exactly
/// once.
pub fn dedup_keys(batch: &Vec<CacheKey>) -> (r: Vec<CacheKey>)
    ensures
        forall|k: Seq<u8>| keys_view(r@).contains(k) <==> keys_view(batch@).contains(k),
        no_dup_keys(keys_view(r@)),
{
    let mut out: Vec<CacheKey> = Vec::new();
    let mut i: usize = 0;
    proof {
        assert(keys_view(batch@).subrange(0, 0) =~= Seq::<Seq<u8>>::empty());
        assert(keys_view(out@) =~= Seq::<Seq<u8>>::empty());
    }
    while i < batch.len()
        invariant
            i <= batch@.len(),
            forall|k: Seq<u8>|
                keys_view(out@).contains(k) <==> keys_view(batch@).subrange(0, i as int).contains(
                    k,
                ),
            no_dup_keys(keys_view(out@)),
        decreases batch@.len() - i,
    {
        let ghost prefix = keys_view(batch@).subrange(0, i as int);
        let ghost prefix1 = keys_view(batch@).subrange(0, i as int + 1);
        proof {
            assert(prefix1 =~= prefix.push(keys_view(batch@)[i as int]));
            assert(keys_view(batch@)[i as int] == batch@[i as int]@);
            assert forall|k: Seq<u8>|
                prefix1.contains(k) <==> (prefix.contains(k) || k == batch@[i as int]@) by {
                if prefix1.contains(k) {
                    let a = choose|a: int| 0 <= a < prefix1.len() && prefix1[a] == k;
                    if a < prefix.len() {
                        assert(prefix[a] == k);
                    }
                }
                if prefix.contains(k) {
                    let a = choose|a: int| 0 <= a < prefix.len() && prefix[a] == k;
                    assert(prefix1[a] == k);
                }
                if k == batch@[i as int]@ {
                    assert(prefix1[i as int] == k);
                }
            }
        }
        if !keys_contain(&out, &batch[i]) {
            let ghost pre = out@;
            let c = batch[i].clone_key();
            out.push(c);
            proof {
                lemma_keys_view_push(pre, c);
                assert(keys_view(out@)[pre.len() as int] == batch@[i as int]@);
                assert forall|k: Seq<u8>|
                    keys_view(out@).contains(k) <==> (keys_view(pre).contains(k) || k == batch@[i
                    as int]@) by {
                    if keys_view(out@).contains(k) {
                        let a = choose|a: int|
                            0 <= a < keys_view(out@).len() && keys_view(out@)[a] == k;
                        if a < pre.len() {
                            assert(keys_view(pre)[a] == k);
                        }
                    }
                    if keys_view(pre).contains(k) {
                        let a = choose|a: int|
                            0 <= a < keys_view(pre).len() && keys_view(pre)[a] == k;
                        assert(keys_view(out@)[a] == k);
                    }
                }
                assert forall|a: int, b: int|
                    0 <= a < b < keys_view(out@).len() implies keys_view(out@)[a] != keys_view(
                    out@,
                )[b] by {
                    if b < pre.len() {
                        assert(keys_view(pre)[a] != keys_view(pre)[b]);
                    } else {
                        assert(keys_view(out@)[b] == batch@[i as int]@);
                        if keys_view(out@)[a] == batch@[i as int]@ {
                            assert(keys_view(pre)[a] == batch@[i as int]@);
                            assert(keys_view(pre).contains(batch@[i as int]@));
                        }
                    }
                }
                assert forall|k: Seq<u8>|
                    keys_view(out@).contains(k) <==> keys_view(batch@).subrange(
                        0,
                        i as int + 1,
                    ).contains(k) by {
                    assert(prefix1.contains(k) <==> (prefix.contains(k) || k == batch@[i
                        as int]@));
                    assert(keys_view(out@).contains(k) <==> (keys_view(pre).contains(k) || k
                        == batch@[i as int]@));
                    assert(keys_view(pre).contains(k) <==> prefix.contains(k));
                    assert(keys_view(batch@).subrange(0, i as int + 1) == prefix1);
                }
            }
        } else {
            proof {
                assert(keys_view(out@).contains(batch@[i as int]@));
                assert forall|k: Seq<u8>|
                    keys_view(out@).contains(k) <==> keys_view(batch@).subrange(
                        0,
                        i as int + 1,
                    ).contains(k) by {
                    assert(prefix1.contains(k) <==> (prefix.contains(k) || k == batch@[i
                        as int]@));
                    assert(keys_view(out@).contains(k) <==> prefix.contains(k));
                    assert(keys_view(batch@).subrange(0, i as int + 1) == prefix1);
                }
            }
        }
        i += 1;
    }
    proof {
        assert(keys_view(batch@).subrange(0, batch@.len() as int) =~= keys_view(batch@));
    }
    out
}

} // verus!
