//! The differ: partitions the local cache key set against the remote one
//! into stale (delete), missing (fetch) and current (load as-is) keys.
//!
//! The partitions are unordered collections keyed by `CacheKey`; tie-breaks
//! are irrelevant because a key uniquely determines both the remote handle
//! and the local file.

use crate::keys::CacheKey;
use vstd::prelude::*;

verus! {

/// The keys to delete: cached locally, no longer present remotely.
pub open spec fn stale_keys(local: Set<CacheKey>, remote: Set<CacheKey>) -> Set<CacheKey> {
    local.difference(remote)
}

/// The keys to fetch: present remotely, not yet cached.
pub open spec fn missing_keys(local: Set<CacheKey>, remote: Set<CacheKey>) -> Set<CacheKey> {
    remote.difference(local)
}

/// The keys to load as-is: cached and still present remotely.
pub open spec fn current_keys(local: Set<CacheKey>, remote: Set<CacheKey>) -> Set<CacheKey> {
    local.intersect(remote)
}

/// The three partitions of the local/remote diff, each key listed once.
pub struct KeyDiff {
    pub stale: Vec<CacheKey>,
    pub missing: Vec<CacheKey>,
    pub current: Vec<CacheKey>,
}

/// Whether `v` lists each element of `s` exactly once.
pub open spec fn lists_set(v: Seq<CacheKey>, s: Set<CacheKey>) -> bool {
    v.no_duplicates() && v.to_set() == s
}

/// What a pushed key list contains: the old elements and the new one.
pub proof fn lemma_contains_push(s: Seq<CacheKey>, x: CacheKey, q: CacheKey)
    ensures
        s.push(x).contains(q) <==> s.contains(q) || q == x,
{
    if s.push(x).contains(q) {
        let j = choose|j: int| 0 <= j < s.push(x).len() && s.push(x)[j] == q;
        if j < s.len() {
            assert(s[j] == q);
        }
    }
    if s.contains(q) {
        let j = choose|j: int| 0 <= j < s.len() && s[j] == q;
        assert(s.push(x)[j] == q);
    }
    if q == x {
        assert(s.push(x)[s.len() as int] == q);
    }
}

/// Membership test on a key list.
pub fn contains_key(v: &Vec<CacheKey>, k: CacheKey) -> (b: bool)
    ensures
        b == v@.contains(k),
{
    let mut i: usize = 0;
    while i < v.len()
        invariant
            0 <= i <= v@.len(),
            forall|j: int| 0 <= j < i ==> v@[j] != k,
        decreases v@.len() - i,
    {
        if v[i] == k {
            return true;
        }
        i = i + 1;
    }
    false
}

/// Collect the elements of `from` that are in `other` (when `keep` holds) or
/// not in `other` (when `keep` does not), each exactly once.
fn sieve(from: &Vec<CacheKey>, other: &Vec<CacheKey>, keep: bool) -> (out: Vec<CacheKey>)
    requires
        from@.no_duplicates(),
    ensures
        out@.no_duplicates(),
        forall|k: CacheKey| #[trigger]
            out@.contains(k) <==> from@.contains(k) && (other@.contains(k) == keep),
{
    let mut out: Vec<CacheKey> = Vec::new();
    let mut i: usize = 0;
    while i < from.len()
        invariant
            0 <= i <= from@.len(),
            from@.no_duplicates(),
            out@.no_duplicates(),
            forall|k: CacheKey| #[trigger]
                out@.contains(k) <==> from@.subrange(0, i as int).contains(k) && (other@.contains(
                    k,
                ) == keep),
        decreases from@.len() - i,
    {
        let k: CacheKey = from[i];
        let ghost pre = from@.subrange(0, i as int);
        let ghost post = from@.subrange(0, i + 1 as int);
        proof {
            assert(post =~= pre.push(k));
            assert forall|q: CacheKey| #[trigger] post.contains(q) <==> pre.contains(q) || q
                == k by {
                if post.contains(q) {
                    let j = choose|j: int| 0 <= j < post.len() && post[j] == q;
                    if j < i as int {
                        assert(pre[j] == q);
                    }
                }
                if pre.contains(q) {
                    let j = choose|j: int| 0 <= j < pre.len() && pre[j] == q;
                    assert(post[j] == q);
                }
                if q == k {
                    assert(post[i as int] == q);
                }
            }
        }
        if contains_key(other, k) == keep {
            proof {
                if out@.contains(k) {
                    assert(pre.contains(k));
                    let j = choose|j: int| 0 <= j < pre.len() && pre[j] == k;
                    assert(from@[j] == from@[i as int]);
                }
                assert(!out@.contains(k));
            }
            let ghost out_pre = out@;
            out.push(k);
            proof {
                assert forall|q: CacheKey| #[trigger] out@.contains(q) <==> out_pre.contains(q) || q
                    == k by {
                    if out@.contains(q) {
                        let j = choose|j: int| 0 <= j < out@.len() && out@[j] == q;
                        if j < out_pre.len() {
                            assert(out_pre[j] == q);
                        }
                    }
                    if out_pre.contains(q) {
                        let j = choose|j: int| 0 <= j < out_pre.len() && out_pre[j] == q;
                        assert(out@[j] == q);
                    }
                    if q == k {
                        assert(out@[out@.len() - 1] == q);
                    }
                }
            }
        }
        i = i + 1;
    }
    proof {
        assert(from@.subrange(0, from@.len() as int) =~= from@);
    }
    out
}

/// Compute the stale / missing / current partitions between the local and
/// remote key sets.
pub fn compute_diff(local: &Vec<CacheKey>, remote: &Vec<CacheKey>) -> (d: KeyDiff)
    requires
        local@.no_duplicates(),
        remote@.no_duplicates(),
    ensures
        lists_set(d.stale@, stale_keys(local@.to_set(), remote@.to_set())),
        lists_set(d.missing@, missing_keys(local@.to_set(), remote@.to_set())),
        lists_set(d.current@, current_keys(local@.to_set(), remote@.to_set())),
{
    let stale = sieve(local, remote, false);
    let missing = sieve(remote, local, false);
    let current = sieve(local, remote, true);
    proof {
        assert(stale@.to_set() =~= stale_keys(local@.to_set(), remote@.to_set()));
        assert(missing@.to_set() =~= missing_keys(local@.to_set(), remote@.to_set()));
        assert(current@.to_set() =~= current_keys(local@.to_set(), remote@.to_set()));
    }
    KeyDiff { stale, missing, current }
}

/// Idempotence of synchronization: once the local key set equals the remote
/// one — as it does after any successful sync — a further diff against an
/// unchanged remote set finds nothing to delete and nothing to fetch, so a
/// second sync performs zero deletions and zero downloads.
pub proof fn lemma_diff_idempotent(keys: Set<CacheKey>)
    ensures
        stale_keys(keys, keys) =~= Set::<CacheKey>::empty(),
        missing_keys(keys, keys) =~= Set::<CacheKey>::empty(),
{
}

} // verus!
