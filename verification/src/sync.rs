//! Orchestration: mirror the remote catalog into the local cache and load
//! every metadata record into one in-memory view.
//!
//! One call drives, in order: list local entries, list remote handles
//! (bootstrapping an empty catalog once), diff, evict stale entries,
//! download missing files (temp-write-then-rename, under a bounded
//! read-ahead window), and load everything that should now be present.
//! There is no partial-success mode: any failure aborts the call, and the
//! caller must treat the cache state as unspecified — except that committed
//! entries are never partially written, whatever the outcome.

use crate::cache_store::CacheStore;
use crate::diff::{compute_diff, contains_key, current_keys, missing_keys, stale_keys, KeyDiff};
use crate::errors::{CacheOp, StorageOp, SyncError};
use crate::keys::{hash_handle, key_of, CacheKey};
use crate::metadata::{file_parses, file_records, line_of, load_metadata_lines, Metadata, MetadataView};
use crate::storage::{BackupStorage, FileHandle, RemoteFile};
use vstd::prelude::*;

verus! {

/// Configuration of the local metadata cache location.
///
/// If a directory is configured and shared across runs, cached metadata
/// files are not downloaded again. If none is configured, the caller passes
/// an ephemeral directory, constructed once at startup, in its place: there
/// is no hidden process-wide state.
pub struct MetadataCacheOpt {
    /// The configured cache root directory, if any.
    pub dir: Option<String>,
}

impl MetadataCacheOpt {
    /// Wrap an optional cache root directory.
    pub fn new(dir: Option<String>) -> (r: MetadataCacheOpt)
        ensures
            r.dir == dir,
    {
        MetadataCacheOpt { dir }
    }

    /// The effective cache directory: the configured root, or the given
    /// ephemeral root when none is configured, with the cache subdirectory
    /// appended (in case things other than the cached files are saved under
    /// the root).
    pub fn cache_dir(&self, ephemeral_root: &str) -> (r: String)
        ensures
            r@ == (if self.dir is Some {
                self.dir.unwrap()@
            } else {
                ephemeral_root@
            }) + seq!['/', 'c', 'a', 'c', 'h', 'e'],
    {
        let mut s: String = match &self.dir {
            Some(d) => d.clone(),
            None => ephemeral_root.to_owned(),
        };
        s.append("/cache");
        proof {
            reveal_strlit("/cache");
            assert(s@ =~= (if self.dir is Some {
                self.dir.unwrap()@
            } else {
                ephemeral_root@
            }) + seq!['/', 'c', 'a', 'c', 'h', 'e']);
        }
        s
    }
}

/// Relies on rand::random: draws one value from the thread-local generator;
/// nothing is assumed about which value comes back.
pub assume_specification<T>[ rand::random::<T> ]() -> (r: T)
    where
        rand::distributions::Standard: rand::distributions::Distribution<T>,
;

/// Write one identity metadata record, with a random, globally
/// distinguishing identifier, through the catalog's append interface: the
/// bootstrap step for an uninitialized remote catalog, so that it is never
/// truly empty.
pub fn initialize_identity<S: BackupStorage>(storage: &mut S) -> (r: Result<(), SyncError>)
    ensures
        r is Ok ==> exists|h: Seq<char>, id: u64|
            final(storage).catalog() == old(storage).catalog().push(
                RemoteFile { handle: h, content: line_of(Metadata::Identity { id }) },
            ),
        r is Err ==> r == Err::<(), SyncError>(SyncError::Storage { op: StorageOp::Save }),
{
    let id: u64 = rand::random::<u64>();
    let metadata = Metadata::Identity { id };
    let name = metadata.name();
    let line = metadata.to_text_line();
    match storage.save_metadata_line(&name, &line) {
        Ok(()) => Ok(()),
        Err(_) => Err(SyncError::Storage { op: StorageOp::Save }),
    }
}

/// The cache keys of a remote catalog: the image of its handles under the
/// hashing function.
pub open spec fn remote_key_set(catalog: Seq<RemoteFile>) -> Set<CacheKey> {
    Set::new(
        |k: CacheKey|
            exists|i: int| 0 <= i < catalog.len() && key_of((#[trigger] catalog[i]).handle) == k,
    )
}

/// Whether `bytes` is the complete content of some catalog entry whose
/// handle hashes to `key`.
pub open spec fn matches_remote(catalog: Seq<RemoteFile>, key: CacheKey, bytes: Seq<u8>) -> bool {
    exists|i: int|
        0 <= i < catalog.len() && key_of((#[trigger] catalog[i]).handle) == key
            && catalog[i].content == bytes
}

/// What a successful sync guarantees of the committed cache entries:
/// convergence — the key set equals the image of the remote handle set under
/// the hash, whatever the starting local state — with entries that were
/// already cached left untouched and newly downloaded entries holding
/// complete remote content.
pub open spec fn sync_ok_post(
    finals_before: Map<CacheKey, Seq<u8>>,
    finals_after: Map<CacheKey, Seq<u8>>,
    catalog: Seq<RemoteFile>,
) -> bool {
    &&& finals_after.dom() == remote_key_set(catalog)
    &&& forall|k: CacheKey|
        finals_before.dom().contains(k) && remote_key_set(catalog).contains(k)
            ==> #[trigger] finals_after[k] == finals_before[k]
    &&& forall|k: CacheKey|
        remote_key_set(catalog).contains(k) && !finals_before.dom().contains(k)
            ==> matches_remote(catalog, k, #[trigger] finals_after[k])
}

/// Atomic visibility: every committed entry is either an untouched previous
/// entry or the complete content of a remote file — never a partial write,
/// even when a sync is aborted between the temporary write and the rename.
pub open spec fn no_partial_finals(
    finals_before: Map<CacheKey, Seq<u8>>,
    finals_after: Map<CacheKey, Seq<u8>>,
    catalog: Seq<RemoteFile>,
) -> bool {
    forall|k: CacheKey| #[trigger]
        finals_after.dom().contains(k) ==> (finals_before.dom().contains(k) && finals_after[k]
            == finals_before[k]) || matches_remote(catalog, k, finals_after[k])
}

/// The concatenation of the records of the files under the listed keys, in
/// list order, file order preserved within each file.
pub open spec fn records_concat(finals: Map<CacheKey, Seq<u8>>, ks: Seq<CacheKey>) -> Seq<Metadata>
    decreases ks.len(),
{
    if ks.len() == 0 {
        Seq::empty()
    } else {
        records_concat(finals, ks.drop_last()) + file_records(finals[ks.last()])
    }
}

/// View completeness: the records are the union, in some order of all the
/// committed keys, with per-file order preserved, of every record in every
/// committed file.
pub open spec fn view_complete(finals: Map<CacheKey, Seq<u8>>, records: Seq<Metadata>) -> bool {
    exists|ks: Seq<CacheKey>|
        ks.no_duplicates() && ks.to_set() == finals.dom() && records == #[trigger] records_concat(
            finals,
            ks,
        )
}

/// Idempotence at the level of the sync contract: a second successful sync
/// against an unchanged remote catalog leaves every committed entry exactly
/// as the first sync left it.
pub proof fn lemma_sync_idempotent(
    f0: Map<CacheKey, Seq<u8>>,
    f1: Map<CacheKey, Seq<u8>>,
    f2: Map<CacheKey, Seq<u8>>,
    catalog: Seq<RemoteFile>,
)
    requires
        sync_ok_post(f0, f1, catalog),
        sync_ok_post(f1, f2, catalog),
    ensures
        f2 == f1,
{
    assert forall|k: CacheKey| #[trigger]
        f1.dom().contains(k) implies f2.dom().contains(k) && f2[k] == f1[k] by {
        assert(remote_key_set(catalog).contains(k));
    }
    assert(f2 =~= f1);
}

/// Sync the local cache with remote storage, and load all metadata entries
/// from the cache into one view.
///
/// `concurrent_downloads` bounds the read-ahead window of the download
/// stage: at most that many fetched files wait, in listing order, for their
/// temp-write-then-rename commit. No ordering is promised between downloads;
/// the resulting cache state is the same under any schedule.
///
/// On success the committed entries have converged to the image of the
/// remote handle set (`sync_ok_post`), every cached file parses, and the
/// returned view is complete (`view_complete`). Whatever the outcome,
/// committed entries are never partially written (`no_partial_finals`), a
/// nonempty catalog is never written to, and an initially empty catalog
/// receives exactly one identity record on a successful call.
#[verifier::loop_isolation(false)]
pub fn sync_and_load<C: CacheStore, S: BackupStorage>(
    cache: &mut C,
    storage: &mut S,
    concurrent_downloads: usize,
) -> (r: Result<MetadataView, SyncError>)
    requires
        concurrent_downloads >= 1,
    ensures
        old(storage).catalog().len() > 0 ==> final(storage).catalog() == old(storage).catalog(),
        no_partial_finals(old(cache).finals(), final(cache).finals(), final(storage).catalog()),
        r is Ok && old(storage).catalog().len() == 0 ==> exists|h: Seq<char>, id: u64|
            final(storage).catalog() == seq![
                RemoteFile { handle: h, content: line_of(Metadata::Identity { id }) },
            ],
        r matches Ok(view) ==> sync_ok_post(
            old(cache).finals(),
            final(cache).finals(),
            final(storage).catalog(),
        ) && final(cache).temps() == old(cache).temps() && (forall|k: CacheKey| #[trigger]
            final(cache).finals().dom().contains(k) ==> file_parses(final(cache).finals()[k]))
            && view_complete(final(cache).finals(), view@),
{
    // List cached metadata entries.
    let local_keys: Vec<CacheKey> = match cache.list_keys() {
        Ok(v) => v,
        Err(_) => {
            return Err(SyncError::IoList);
        },
    };
    // List remote metadata files; bootstrap once if the catalog is empty.
    let mut handles: Vec<FileHandle> = match storage.list_metadata_files() {
        Ok(v) => v,
        Err(_) => {
            return Err(SyncError::Storage { op: StorageOp::List });
        },
    };
    if handles.len() == 0 {
        match initialize_identity(storage) {
            Ok(()) => {},
            Err(e) => {
                return Err(e);
            },
        }
        proof {
            let (h, id): (Seq<char>, u64) = choose|h: Seq<char>, id: u64|
                storage.catalog() == old(storage).catalog().push(
                    RemoteFile { handle: h, content: line_of(Metadata::Identity { id }) },
                );
            assert(storage.catalog() =~= seq![
                RemoteFile { handle: h, content: line_of(Metadata::Identity { id }) },
            ]);
        }
        handles = match storage.list_metadata_files() {
            Ok(v) => v,
            Err(_) => {
                return Err(SyncError::Storage { op: StorageOp::List });
            },
        };
        if handles.len() == 0 {
            // the catalog must not remain empty after the bootstrap write
            return Err(SyncError::Consistency);
        }
    }
    let ghost cat = storage.catalog();
    let ghost fin0 = old(cache).finals();
    let ghost temps0 = old(cache).temps();

    // Hash every remote handle to its cache key, deduplicating: a key
    // uniquely determines both the handle and the local file.
    let mut remote_keys: Vec<CacheKey> = Vec::new();
    let mut hi: usize = 0;
    while hi < handles.len()
        invariant
            0 <= hi <= handles@.len(),
            remote_keys@.no_duplicates(),
            forall|k: CacheKey| #[trigger]
                remote_keys@.contains(k) <==> exists|j: int|
                    0 <= j < hi && key_of((#[trigger] cat[j]).handle) == k,
        decreases handles@.len() - hi,
    {
        let k: CacheKey = hash_handle(handles[hi].as_str());
        if !contains_key(&remote_keys, k) {
            let ghost pre = remote_keys@;
            remote_keys.push(k);
            proof {
                assert forall|q: CacheKey| #[trigger]
                    remote_keys@.contains(q) <==> pre.contains(q) || q == k by {
                    crate::diff::lemma_contains_push(pre, k, q);
                }
            }
        }
        hi = hi + 1;
    }
    let ghost remotes = remote_keys@.to_set();
    proof {
        assert(remotes =~= remote_key_set(cat));
    }
    let ghost locals = local_keys@.to_set();

    // Partition the keys.
    let d: KeyDiff = compute_diff(&local_keys, &remote_keys);
    let KeyDiff { stale, missing, current } = d;

    // Evict stale entries: all of them, or the sync fails without
    // proceeding to downloads.
    let mut si: usize = 0;
    while si < stale.len()
        invariant
            0 <= si <= stale@.len(),
            cache.temps() == temps0,
            forall|k: CacheKey| #[trigger]
                cache.finals().dom().contains(k) <==> fin0.dom().contains(k) && !stale@.subrange(
                    0,
                    si as int,
                ).contains(k),
            forall|k: CacheKey| #[trigger]
                cache.finals().dom().contains(k) ==> cache.finals()[k] == fin0[k],
        decreases stale@.len() - si,
    {
        let k: CacheKey = stale[si];
        let ghost prev = cache.finals();
        match cache.remove_final(k) {
            Ok(()) => {},
            Err(_) => {
                proof {
                    assert forall|q: CacheKey| #[trigger]
                        cache.finals().dom().contains(q) implies fin0.dom().contains(q)
                        && cache.finals()[q] == fin0[q] by {
                        assert(prev.dom().contains(q));
                    }
                }
                return Err(SyncError::Io { op: CacheOp::Delete, key: k });
            },
        }
        proof {
            let pre = stale@.subrange(0, si as int);
            let post = stale@.subrange(0, si + 1 as int);
            assert(post =~= pre.push(k));
            assert forall|q: CacheKey| #[trigger] post.contains(q) <==> pre.contains(q) || q
                == k by {
                crate::diff::lemma_contains_push(pre, k, q);
            }
        }
        si = si + 1;
    }
    proof {
        assert(stale@.subrange(0, stale@.len() as int) =~= stale@);
        assert forall|k: CacheKey| #[trigger] cache.finals().dom().contains(k) <==> current_keys(
            locals,
            remotes,
        ).contains(k) by {
            if fin0.dom().contains(k) && !stale@.contains(k) {
                assert(locals.contains(k));
                assert(!stale_keys(locals, remotes).contains(k));
            }
            if current_keys(locals, remotes).contains(k) {
                assert(!stale_keys(locals, remotes).contains(k));
                assert(!stale@.to_set().contains(k));
            }
        }
    }
    let ghost fin1 = cache.finals();

    // Download missing files under the bounded read-ahead window: fetch up
    // to the cap, then commit the oldest transfer by exclusive temporary
    // write and atomic rename. A temporary file left by an interrupted
    // earlier run makes the exclusive creation for its key fail, and the
    // sync with it; no stale temporary files are cleaned up here.
    let total: usize = missing.len();
    let mut buffer: Vec<(CacheKey, Vec<u8>)> = Vec::new();
    let mut f: usize = 0;
    while f < total || buffer.len() > 0
        invariant
            0 <= f <= total,
            buffer@.len() <= f,
            buffer@.len() <= concurrent_downloads,
            forall|j: int|
                0 <= j < buffer@.len() ==> (#[trigger] buffer@[j]).0 == missing@[f - buffer@.len()
                    + j] && matches_remote(cat, buffer@[j].0, buffer@[j].1@),
            cache.temps() == temps0,
            forall|k: CacheKey| #[trigger]
                cache.finals().dom().contains(k) <==> fin1.dom().contains(k)
                    || missing@.subrange(0, f - buffer@.len()).contains(k),
            forall|k: CacheKey|
                fin1.dom().contains(k) ==> #[trigger] cache.finals()[k] == fin1[k],
            forall|k: CacheKey|
                missing@.subrange(0, f - buffer@.len()).contains(k) ==> matches_remote(
                    cat,
                    k,
                    #[trigger] cache.finals()[k],
                ),
        decreases total - f, buffer@.len(),
    {
        if buffer.len() < concurrent_downloads && f < total {
            let k: CacheKey = missing[f];
            let idx: usize = match find_handle(&handles, k) {
                Some(i) => i,
                None => {
                    proof {
                        assert(missing@.contains(k));
                        assert(missing_keys(locals, remotes).contains(k));
                        assert(remotes.contains(k));
                        let i = choose|i: int|
                            0 <= i < cat.len() && key_of((#[trigger] cat[i]).handle) == k;
                        assert(key_of((handles@[i])@) == k);
                        assert(false);
                    }
                    return Err(SyncError::Storage { op: StorageOp::Open });
                },
            };
            let bytes: Vec<u8> = match storage.open_for_read(&handles[idx]) {
                Ok(b) => b,
                Err(_) => {
                    return Err(SyncError::Storage { op: StorageOp::Open });
                },
            };
            proof {
                let i = choose|i: int|
                    0 <= i < cat.len() && (#[trigger] cat[i]).handle == (handles@[idx as int])@
                        && bytes@ == cat[i].content;
                assert(key_of(cat[i].handle) == k);
                assert(matches_remote(cat, k, bytes@));
            }
            let ghost buf_pre = buffer@;
            buffer.push((k, bytes));
            proof {
                assert(missing@[f as int] == k);
                assert forall|j: int|
                    0 <= j < buffer@.len() implies (#[trigger] buffer@[j]).0 == missing@[f + 1
                    - buffer@.len() + j] && matches_remote(cat, buffer@[j].0, buffer@[j].1@) by {
                    if j < buf_pre.len() {
                        assert(buffer@[j] == buf_pre[j]);
                    } else {
                        assert(buffer@[j] == (k, bytes));
                    }
                }
                assert(missing@.subrange(0, f + 1 - buffer@.len()) =~= missing@.subrange(
                    0,
                    f - buf_pre.len(),
                ));
            }
            f = f + 1;
        } else {
            proof {
                assert(buffer@.len() > 0);
            }
            let ghost buf_pre = buffer@;
            let entry: (CacheKey, Vec<u8>) = buffer.remove(0);
            let k: CacheKey = entry.0;
            let bytes: Vec<u8> = entry.1;
            let ghost c = f - buf_pre.len();
            proof {
                assert(k == missing@[c]);
                assert(matches_remote(cat, k, bytes@));
                assert forall|j: int|
                    0 <= j < buffer@.len() implies (#[trigger] buffer@[j]).0 == missing@[c + 1 + j]
                    && matches_remote(cat, buffer@[j].0, buffer@[j].1@) by {
                    assert(buffer@[j] == buf_pre[j + 1]);
                }
            }
            let ghost prev = cache.finals();
            match cache.create_temp(k, &bytes) {
                Ok(()) => {},
                Err(_) => {
                    return Err(SyncError::Io { op: CacheOp::CreateTemp, key: k });
                },
            }
            match cache.promote_temp(k) {
                Ok(()) => {},
                Err(_) => {
                    return Err(SyncError::Io { op: CacheOp::Promote, key: k });
                },
            }
            proof {
                assert(cache.temps() =~= temps0);
                assert(cache.finals() == prev.insert(k, bytes@));
                assert(missing@.contains(k));
                assert(missing_keys(locals, remotes).contains(k));
                assert(!current_keys(locals, remotes).contains(k));
                assert(!fin1.dom().contains(k));
                assert forall|q: CacheKey| fin1.dom().contains(q) implies #[trigger] cache.finals()[q]
                    == fin1[q] by {
                    assert(cache.finals()[q] == prev[q]);
                }
                let pre = missing@.subrange(0, c);
                let post = missing@.subrange(0, c + 1);
                assert(post =~= pre.push(k));
                assert forall|q: CacheKey| #[trigger] post.contains(q) <==> pre.contains(q) || q
                    == k by {
                    crate::diff::lemma_contains_push(pre, k, q);
                }
            }
        }
    }
    proof {
        assert(missing@.subrange(0, total as int) =~= missing@);
        assert forall|k: CacheKey| #[trigger] cache.finals().dom().contains(k) <==> remotes.contains(
            k,
        ) by {
            if cache.finals().dom().contains(k) {
                if fin1.dom().contains(k) {
                    assert(current_keys(locals, remotes).contains(k));
                } else {
                    assert(missing@.to_set().contains(k));
                    assert(missing_keys(locals, remotes).contains(k));
                }
            }
            if remotes.contains(k) {
                if locals.contains(k) {
                    assert(current_keys(locals, remotes).contains(k));
                } else {
                    assert(missing_keys(locals, remotes).contains(k));
                    assert(missing@.to_set().contains(k));
                }
            }
        }
        assert(cache.finals().dom() =~= remotes);
    }
    let ghost fin2 = cache.finals();

    // Load metadata from all synced cache entries: the newly downloaded
    // keys first, then the up-to-date ones, records in file order.
    let mut to_load: Vec<CacheKey> = missing;
    let mut current: Vec<CacheKey> = current;
    let ghost miss_seq = to_load@;
    let ghost cur_seq = current@;
    to_load.append(&mut current);
    proof {
        assert forall|a: int, b: int|
            0 <= a < b < to_load@.len() implies to_load@[a] != to_load@[b] by {
            if a < miss_seq.len() && b >= miss_seq.len() {
                assert(to_load@[a] == miss_seq[a]);
                assert(to_load@[b] == cur_seq[b - miss_seq.len()]);
                assert(miss_seq.contains(to_load@[a]));
                assert(cur_seq.contains(to_load@[b]));
                assert(missing_keys(locals, remotes).contains(to_load@[a]));
                assert(current_keys(locals, remotes).contains(to_load@[b]));
            } else if b < miss_seq.len() {
                assert(to_load@[a] == miss_seq[a] && to_load@[b] == miss_seq[b]);
            } else {
                assert(to_load@[a] == cur_seq[a - miss_seq.len()] && to_load@[b] == cur_seq[b
                    - miss_seq.len()]);
            }
        }
        assert(to_load@.no_duplicates());
        assert forall|k: CacheKey| #[trigger] to_load@.contains(k) <==> remotes.contains(k) by {
            if to_load@.contains(k) {
                let j = choose|j: int| 0 <= j < to_load@.len() && to_load@[j] == k;
                if j < miss_seq.len() {
                    assert(miss_seq[j] == k);
                    assert(miss_seq.contains(k));
                } else {
                    assert(cur_seq[j - miss_seq.len()] == k);
                    assert(cur_seq.contains(k));
                }
            }
            if remotes.contains(k) {
                if locals.contains(k) {
                    assert(cur_seq.to_set().contains(k));
                    let j = choose|j: int| 0 <= j < cur_seq.len() && cur_seq[j] == k;
                    assert(to_load@[miss_seq.len() + j] == k);
                } else {
                    assert(miss_seq.to_set().contains(k));
                    let j = choose|j: int| 0 <= j < miss_seq.len() && miss_seq[j] == k;
                    assert(to_load@[j] == k);
                }
            }
        }
        assert(to_load@.to_set() =~= fin2.dom());
    }
    let mut records: Vec<Metadata> = Vec::new();
    let mut li: usize = 0;
    while li < to_load.len()
        invariant
            0 <= li <= to_load@.len(),
            forall|j: int| 0 <= j < li ==> file_parses(fin2[#[trigger] to_load@[j]]),
            records@ == records_concat(fin2, to_load@.subrange(0, li as int)),
        decreases to_load@.len() - li,
    {
        let k: CacheKey = to_load[li];
        let bytes: Vec<u8> = match cache.read_final(k) {
            Ok(b) => b,
            Err(_) => {
                return Err(SyncError::Io { op: CacheOp::Read, key: k });
            },
        };
        let mut ms: Vec<Metadata> = match load_metadata_lines(&bytes) {
            Ok(v) => v,
            Err(_) => {
                return Err(SyncError::Parse { key: k });
            },
        };
        let ghost ms_seq = ms@;
        records.append(&mut ms);
        proof {
            let pre = to_load@.subrange(0, li as int);
            let post = to_load@.subrange(0, li + 1 as int);
            assert(post =~= pre.push(k));
            assert(post.drop_last() =~= pre);
            assert(post.last() == k);
            assert(records_concat(fin2, post) == records_concat(fin2, pre) + file_records(
                fin2[k],
            ));
        }
        li = li + 1;
    }
    proof {
        assert(to_load@.subrange(0, to_load@.len() as int) =~= to_load@);
        assert(view_complete(fin2, records@));
        assert forall|k: CacheKey| #[trigger] fin2.dom().contains(k) implies file_parses(
            fin2[k],
        ) by {
            assert(to_load@.to_set().contains(k));
            assert(to_load@.contains(k));
            let j = choose|j: int| 0 <= j < to_load@.len() && to_load@[j] == k;
        }
    }
    Ok(MetadataView::from_records(records))
}

/// The index of a handle whose hash is `k`.
fn find_handle(handles: &Vec<FileHandle>, k: CacheKey) -> (r: Option<usize>)
    ensures
        r matches Some(i) ==> i < handles@.len() && key_of(handles@[i as int]@) == k,
        r is None ==> forall|j: int| 0 <= j < handles@.len() ==> key_of((#[trigger] handles@[j])@)
            != k,
{
    let mut i: usize = 0;
    while i < handles.len()
        invariant
            0 <= i <= handles@.len(),
            forall|j: int| 0 <= j < i ==> key_of((#[trigger] handles@[j])@) != k,
        decreases handles@.len() - i,
    {
        if hash_handle(handles[i].as_str()) == k {
            return Some(i);
        }
        i = i + 1;
    }
    None
}

} // verus!
