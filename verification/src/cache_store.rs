//! The local cache directory: the capability the engine mutates, and an
//! in-memory directory that satisfies it.
//!
//! A store holds committed entries (final-named files, keyed by `CacheKey`)
//! and in-flight temporary entries. The two name spaces never meet: a
//! temporary name never matches a cache key, so listing and loading see
//! committed entries only. A download becomes visible in one step, the
//! rename of its temporary entry: committed entries are never partially
//! written.

use crate::errors::CacheIoError;
use crate::keys::CacheKey;
use crate::text::copy_bytes;
use vstd::prelude::*;

verus! {

/// The local cache directory.
///
/// Any operation may fail (the directory is real I/O for production stores);
/// the contracts state what holds of the committed and temporary entries
/// whatever the outcome. The central promise is that only `promote_temp`
/// ever changes a committed entry, and only to the complete content of a
/// temporary one.
pub trait CacheStore: Sized {
    /// The committed entries: cache key to full file content. Left
    /// arbitrary unless an implementation defines it: an implementation
    /// outside the verified library inherits this default, and nothing is
    /// then known of its entries.
    open spec fn finals(&self) -> Map<CacheKey, Seq<u8>> {
        vstd::pervasive::arbitrary()
    }

    /// The in-flight temporary entries: cache key to bytes written so far.
    /// Left arbitrary unless an implementation defines it.
    open spec fn temps(&self) -> Map<CacheKey, Seq<u8>> {
        vstd::pervasive::arbitrary()
    }

    /// Enumerate the keys of all committed entries. Temporary entries never
    /// appear: their names match no cache key.
    fn list_keys(&self) -> (r: Result<Vec<CacheKey>, CacheIoError>)
        ensures
            r matches Ok(v) ==> v@.no_duplicates() && v@.to_set() == self.finals().dom(),
    ;

    /// Delete one committed entry. On failure the entry is either still
    /// there unchanged or already gone; nothing else moves.
    fn remove_final(&mut self, key: CacheKey) -> (r: Result<(), CacheIoError>)
        ensures
            final(self).temps() == old(self).temps(),
            r is Ok ==> final(self).finals() == old(self).finals().remove(key),
            r is Err ==> final(self).finals() == old(self).finals() || final(self).finals() == old(
                self,
            ).finals().remove(key),
    ;

    /// Exclusively create the temporary entry for `key` and write `content`
    /// into it. Fails if a temporary entry for `key` already exists, so two
    /// downloads of one key can never clobber each other. Committed entries
    /// are never touched, whatever the outcome; a failed write may leave a
    /// partial temporary entry behind.
    fn create_temp(&mut self, key: CacheKey, content: &Vec<u8>) -> (r: Result<(), CacheIoError>)
        ensures
            final(self).finals() == old(self).finals(),
            old(self).temps().dom().contains(key) ==> r is Err,
            r is Ok ==> final(self).temps() == old(self).temps().insert(key, content@),
            r is Err ==> final(self).temps() == old(self).temps() || exists|b: Seq<u8>|
                final(self).temps() == old(self).temps().insert(key, b),
    ;

    /// Atomically rename the temporary entry for `key` to its final name:
    /// afterwards the committed entry holds exactly the bytes the temporary
    /// held, and the temporary is gone. The rename happens in full or not at
    /// all.
    fn promote_temp(&mut self, key: CacheKey) -> (r: Result<(), CacheIoError>)
        ensures
            r is Ok ==> old(self).temps().dom().contains(key) && final(self).finals() == old(
                self,
            ).finals().insert(key, old(self).temps()[key]) && final(self).temps() == old(
                self,
            ).temps().remove(key),
            r is Err ==> final(self).finals() == old(self).finals() && final(self).temps() == old(
                self,
            ).temps(),
    ;

    /// Read the full content of one committed entry.
    fn read_final(&self, key: CacheKey) -> (r: Result<Vec<u8>, CacheIoError>)
        ensures
            r matches Ok(bytes) ==> self.finals().dom().contains(key) && bytes@
                == self.finals().index(key),
    ;
}

/// The map an association list of cache entries denotes.
pub open spec fn entry_map(entries: Seq<(CacheKey, Vec<u8>)>) -> Map<CacheKey, Seq<u8>>
    decreases entries.len(),
{
    if entries.len() == 0 {
        Map::empty()
    } else {
        entry_map(entries.drop_last()).insert(entries.last().0, entries.last().1@)
    }
}

/// Whether the keys of an association list are pairwise distinct.
pub open spec fn entry_keys_unique(entries: Seq<(CacheKey, Vec<u8>)>) -> bool {
    forall|i: int, j: int|
        0 <= i < j < entries.len() ==> (#[trigger] entries[i]).0 != (#[trigger] entries[j]).0
}

/// A key is in the map exactly when some entry carries it.
pub proof fn lemma_entry_map_dom(entries: Seq<(CacheKey, Vec<u8>)>, k: CacheKey)
    ensures
        entry_map(entries).dom().contains(k) <==> exists|i: int|
            0 <= i < entries.len() && (#[trigger] entries[i]).0 == k,
    decreases entries.len(),
{
    if entries.len() > 0 {
        lemma_entry_map_dom(entries.drop_last(), k);
        if entries.last().0 == k {
            assert((entries[entries.len() - 1]).0 == k);
        } else if entry_map(entries).dom().contains(k) {
            let i = choose|i: int|
                0 <= i < entries.drop_last().len() && (#[trigger] entries.drop_last()[i]).0 == k;
            assert((entries[i]).0 == k);
        } else {
            assert forall|i: int| 0 <= i < entries.len() && (#[trigger] entries[i]).0 == k
                implies false by {
                assert((entries.drop_last()[i]).0 == k);
            }
        }
    }
}

/// With distinct keys, each entry's content is what the map holds for its
/// key.
pub proof fn lemma_entry_map_get(entries: Seq<(CacheKey, Vec<u8>)>, i: int)
    requires
        entry_keys_unique(entries),
        0 <= i < entries.len(),
    ensures
        entry_map(entries).dom().contains(entries[i].0),
        entry_map(entries)[entries[i].0] == entries[i].1@,
    decreases entries.len(),
{
    if i == entries.len() - 1 {
    } else {
        assert(entries.drop_last()[i] == entries[i]);
        lemma_entry_map_get(entries.drop_last(), i);
        assert((entries[i]).0 != (entries[entries.len() - 1]).0);
    }
}

/// With distinct keys, removing one entry removes exactly its key.
pub proof fn lemma_entry_map_remove(entries: Seq<(CacheKey, Vec<u8>)>, i: int)
    requires
        entry_keys_unique(entries),
        0 <= i < entries.len(),
    ensures
        entry_map(entries.remove(i)) == entry_map(entries).remove(entries[i].0),
    decreases entries.len(),
{
    let k = entries[i].0;
    if i == entries.len() - 1 {
        assert(entries.remove(i) =~= entries.drop_last());
        assert forall|q: CacheKey| true implies entry_map(entries.drop_last()).remove(q).contains_key(
            q,
        ) == false by {}
        lemma_entry_map_dom(entries.drop_last(), k);
        assert(!entry_map(entries.drop_last()).dom().contains(k)) by {
            if entry_map(entries.drop_last()).dom().contains(k) {
                let j = choose|j: int|
                    0 <= j < entries.drop_last().len() && (#[trigger] entries.drop_last()[j]).0
                        == k;
                assert((entries[j]).0 == k);
            }
        }
        assert(entry_map(entries.drop_last()) =~= entry_map(entries).remove(k));
    } else {
        let shorter = entries.drop_last();
        assert(entries.remove(i).drop_last() =~= shorter.remove(i));
        assert(shorter[i] == entries[i]);
        lemma_entry_map_remove(shorter, i);
        let last = entries.last();
        assert(entries.remove(i).last() == last);
        assert(entry_map(entries.remove(i)) == entry_map(shorter.remove(i)).insert(
            last.0,
            last.1@,
        ));
        assert((entries[i]).0 != (entries[entries.len() - 1]).0);
        assert(entry_map(shorter).remove(k).insert(last.0, last.1@) =~= entry_map(shorter).insert(
            last.0,
            last.1@,
        ).remove(k));
    }
}

/// An in-memory cache directory: the verified reference implementation of
/// `CacheStore`, also used as the test double. Its operations never fail
/// except where the contract demands failure (exclusive creation, promoting
/// or reading an absent entry).
pub struct InMemoryCacheStore {
    final_entries: Vec<(CacheKey, Vec<u8>)>,
    temp_entries: Vec<(CacheKey, Vec<u8>)>,
}

impl InMemoryCacheStore {
    #[verifier::type_invariant]
    closed spec fn wf(&self) -> bool {
        entry_keys_unique(self.final_entries@) && entry_keys_unique(self.temp_entries@)
    }

    /// An empty cache directory.
    pub fn new() -> (r: InMemoryCacheStore)
        ensures
            r.finals() == Map::<CacheKey, Seq<u8>>::empty(),
            r.temps() == Map::<CacheKey, Seq<u8>>::empty(),
    {
        InMemoryCacheStore { final_entries: Vec::new(), temp_entries: Vec::new() }
    }

    /// The index of `key` among the entries, if present.
    fn find(entries: &Vec<(CacheKey, Vec<u8>)>, key: CacheKey) -> (r: Option<usize>)
        ensures
            r matches Some(i) ==> 0 <= i < entries@.len() && entries@[i as int].0 == key,
            r is None ==> forall|i: int|
                0 <= i < entries@.len() ==> (#[trigger] entries@[i]).0 != key,
    {
        let mut i: usize = 0;
        while i < entries.len()
            invariant
                0 <= i <= entries@.len(),
                forall|j: int| 0 <= j < i ==> (#[trigger] entries@[j]).0 != key,
            decreases entries@.len() - i,
        {
            if entries[i].0 == key {
                return Some(i);
            }
            i = i + 1;
        }
        None
    }
}

impl CacheStore for InMemoryCacheStore {
    closed spec fn finals(&self) -> Map<CacheKey, Seq<u8>> {
        entry_map(self.final_entries@)
    }

    closed spec fn temps(&self) -> Map<CacheKey, Seq<u8>> {
        entry_map(self.temp_entries@)
    }

    fn list_keys(&self) -> (r: Result<Vec<CacheKey>, CacheIoError>) {
        proof {
            use_type_invariant(self);
        }
        let mut out: Vec<CacheKey> = Vec::new();
        let mut i: usize = 0;
        while i < self.final_entries.len()
            invariant
                0 <= i <= self.final_entries@.len(),
                out@.len() == i,
                forall|j: int| 0 <= j < i ==> out@[j] == (#[trigger] self.final_entries@[j]).0,
                entry_keys_unique(self.final_entries@),
            decreases self.final_entries@.len() - i,
        {
            out.push(self.final_entries[i].0);
            i = i + 1;
        }
        proof {
            assert forall|a: int, b: int|
                0 <= a < out@.len() && 0 <= b < out@.len() && a != b implies out@[a] != out@[b] by {
                assert(out@[a] == (self.final_entries@[a]).0);
                assert(out@[b] == (self.final_entries@[b]).0);
                if a < b {
                    assert((self.final_entries@[a]).0 != (self.final_entries@[b]).0);
                } else {
                    assert((self.final_entries@[b]).0 != (self.final_entries@[a]).0);
                }
            }
            assert(out@.no_duplicates());
            assert forall|k: CacheKey| #[trigger]
                out@.to_set().contains(k) == self.finals().dom().contains(k) by {
                lemma_entry_map_dom(self.final_entries@, k);
                if out@.to_set().contains(k) {
                    let j = choose|j: int| 0 <= j < out@.len() && out@[j] == k;
                    assert((self.final_entries@[j]).0 == k);
                }
                if self.finals().dom().contains(k) {
                    let j = choose|j: int|
                        0 <= j < self.final_entries@.len() && (#[trigger] self.final_entries@[j]).0
                            == k;
                    assert(out@[j] == k);
                    assert(out@.contains(k));
                }
            }
            assert(out@.to_set() =~= self.finals().dom());
        }
        Ok(out)
    }

    fn remove_final(&mut self, key: CacheKey) -> (r: Result<(), CacheIoError>) {
        proof {
            use_type_invariant(&*self);
        }
        match Self::find(&self.final_entries, key) {
            Some(i) => {
                proof {
                    lemma_entry_map_remove(self.final_entries@, i as int);
                }
                let ghost before = self.final_entries@;
                let mut entries: Vec<(CacheKey, Vec<u8>)> = Vec::new();
                core::mem::swap(&mut entries, &mut self.final_entries);
                entries.remove(i);
                proof {
                    assert forall|a: int, b: int| 0 <= a < b < entries@.len() implies (
                    #[trigger] entries@[a]).0 != (#[trigger] entries@[b]).0 by {
                        assert(entries@[a] == if a < i as int {
                            before[a]
                        } else {
                            before[a + 1]
                        });
                        assert(entries@[b] == if b < i as int {
                            before[b]
                        } else {
                            before[b + 1]
                        });
                    }
                }
                core::mem::swap(&mut self.final_entries, &mut entries);
                Ok(())
            },
            None => {
                proof {
                    lemma_entry_map_dom(self.final_entries@, key);
                    assert(self.finals() =~= self.finals().remove(key));
                }
                Ok(())
            },
        }
    }

    fn create_temp(&mut self, key: CacheKey, content: &Vec<u8>) -> (r: Result<(), CacheIoError>) {
        proof {
            use_type_invariant(&*self);
        }
        match Self::find(&self.temp_entries, key) {
            Some(_) => {
                proof {
                    lemma_entry_map_dom(self.temp_entries@, key);
                }
                Err(CacheIoError)
            },
            None => {
                proof {
                    lemma_entry_map_dom(self.temp_entries@, key);
                }
                let ghost before = self.temp_entries@;
                let bytes = copy_bytes(content);
                let mut entries: Vec<(CacheKey, Vec<u8>)> = Vec::new();
                core::mem::swap(&mut entries, &mut self.temp_entries);
                entries.push((key, bytes));
                proof {
                    assert(entries@.drop_last() =~= before);
                    assert forall|a: int, b: int| 0 <= a < b < entries@.len() implies (
                    #[trigger] entries@[a]).0 != (#[trigger] entries@[b]).0 by {
                        if b < entries@.len() - 1 {
                            assert(entries@[a] == before[a] && entries@[b] == before[b]);
                        } else {
                            assert(entries@[a] == before[a]);
                        }
                    }
                }
                core::mem::swap(&mut self.temp_entries, &mut entries);
                Ok(())
            },
        }
    }

    fn promote_temp(&mut self, key: CacheKey) -> (r: Result<(), CacheIoError>) {
        proof {
            use_type_invariant(&*self);
        }
        match Self::find(&self.temp_entries, key) {
            Some(ti) => {
                proof {
                    lemma_entry_map_get(self.temp_entries@, ti as int);
                    lemma_entry_map_remove(self.temp_entries@, ti as int);
                }
                let ghost temps_before = self.temp_entries@;
                let mut temps: Vec<(CacheKey, Vec<u8>)> = Vec::new();
                core::mem::swap(&mut temps, &mut self.temp_entries);
                let taken: (CacheKey, Vec<u8>) = temps.remove(ti);
                let bytes: Vec<u8> = taken.1;
                proof {
                    assert forall|a: int, b: int| 0 <= a < b < temps@.len() implies (
                    #[trigger] temps@[a]).0 != (#[trigger] temps@[b]).0 by {
                        assert(temps@[a] == if a < ti as int {
                            temps_before[a]
                        } else {
                            temps_before[a + 1]
                        });
                        assert(temps@[b] == if b < ti as int {
                            temps_before[b]
                        } else {
                            temps_before[b + 1]
                        });
                    }
                }
                core::mem::swap(&mut self.temp_entries, &mut temps);
                let ghost finals_start = self.final_entries@;
                let mut finals: Vec<(CacheKey, Vec<u8>)> = Vec::new();
                core::mem::swap(&mut finals, &mut self.final_entries);
                match Self::find(&finals, key) {
                    Some(fi) => {
                        proof {
                            lemma_entry_map_remove(finals@, fi as int);
                        }
                        let ghost finals_before = finals@;
                        finals.remove(fi);
                        proof {
                            assert forall|a: int, b: int| 0 <= a < b < finals@.len() implies (
                            #[trigger] finals@[a]).0 != (#[trigger] finals@[b]).0 by {
                                assert(finals@[a] == if a < fi as int {
                                    finals_before[a]
                                } else {
                                    finals_before[a + 1]
                                });
                                assert(finals@[b] == if b < fi as int {
                                    finals_before[b]
                                } else {
                                    finals_before[b + 1]
                                });
                            }
                            lemma_entry_map_dom(finals@, key);
                            if entry_map(finals@).dom().contains(key) {
                                let j = choose|j: int|
                                    0 <= j < finals@.len() && (#[trigger] finals@[j]).0 == key;
                                assert(finals@[j] == if j < fi as int {
                                    finals_before[j]
                                } else {
                                    finals_before[j + 1]
                                });
                            }
                        }
                    },
                    None => {
                        proof {
                            lemma_entry_map_dom(finals@, key);
                        }
                    },
                }
                proof {
                    assert(!entry_map(finals@).dom().contains(key));
                    assert(entry_map(finals@) =~= entry_map(finals_start).remove(key));
                }
                let ghost finals_no_key = finals@;
                finals.push((key, bytes));
                proof {
                    lemma_entry_map_dom(finals_no_key, key);
                    assert forall|a: int, b: int| 0 <= a < b < finals@.len() implies (
                    #[trigger] finals@[a]).0 != (#[trigger] finals@[b]).0 by {
                        if b == finals@.len() - 1 {
                            assert(finals@[a] == finals_no_key[a]);
                        } else {
                            assert(finals@[a] == finals_no_key[a]);
                            assert(finals@[b] == finals_no_key[b]);
                        }
                    }
                    assert(finals@.drop_last() =~= finals_no_key);
                    assert(entry_map(finals@) =~= entry_map(finals_start).insert(
                        key,
                        old(self).temps()[key],
                    ));
                }
                core::mem::swap(&mut self.final_entries, &mut finals);
                Ok(())
            },
            None => {
                proof {
                    lemma_entry_map_dom(self.temp_entries@, key);
                }
                Err(CacheIoError)
            },
        }
    }

    fn read_final(&self, key: CacheKey) -> (r: Result<Vec<u8>, CacheIoError>) {
        proof {
            use_type_invariant(self);
        }
        match Self::find(&self.final_entries, key) {
            Some(i) => {
                proof {
                    lemma_entry_map_get(self.final_entries@, i as int);
                }
                Ok(copy_bytes(&self.final_entries[i].1))
            },
            None => Err(CacheIoError),
        }
    }
}

} // verus!
