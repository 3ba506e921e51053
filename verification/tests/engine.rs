use metadata_cache::cache_store::{CacheStore, InMemoryCacheStore};
use metadata_cache::errors::{CacheOp, SyncError};
use metadata_cache::keys::hash_handle;
use metadata_cache::metadata::Metadata;
use metadata_cache::storage::{BackupStorage, InMemoryStorage};
use metadata_cache::sync::sync_and_load;

fn line(m: Metadata) -> Vec<u8> {
    m.to_text_line()
}

#[test]
fn empty_local_two_remote_files() {
    // Local cache empty; remote has two handles, one record each. After the
    // sync both final files exist and the view holds exactly two records.
    let mut storage = InMemoryStorage::new();
    storage.add_file("a.meta".to_string(), line(Metadata::Backup { version: 1 }));
    storage.add_file("b.meta".to_string(), line(Metadata::Backup { version: 2 }));
    let mut cache = InMemoryCacheStore::new();

    let view = sync_and_load(&mut cache, &mut storage, 1).unwrap();
    assert_eq!(view.len(), 2);
    assert_eq!(
        view.records().as_slice(),
        &[Metadata::Backup { version: 1 }, Metadata::Backup { version: 2 }][..]
    );

    let mut keys = cache.list_keys().unwrap();
    keys.sort();
    let mut expected = vec![hash_handle("a.meta"), hash_handle("b.meta")];
    expected.sort();
    assert_eq!(keys, expected);
    assert_eq!(
        cache.read_final(hash_handle("a.meta")).unwrap(),
        line(Metadata::Backup { version: 1 })
    );
    assert_eq!(
        cache.read_final(hash_handle("b.meta")).unwrap(),
        line(Metadata::Backup { version: 2 })
    );
}

#[test]
fn stale_local_entry_is_evicted() {
    // The local cache holds a key that is not present remotely: after the
    // sync that file is deleted and the view excludes its record.
    let stale_key = hash_handle("c.meta");
    let mut cache = InMemoryCacheStore::new();
    cache
        .create_temp(stale_key, &line(Metadata::Backup { version: 77 }))
        .unwrap();
    cache.promote_temp(stale_key).unwrap();
    assert!(cache.read_final(stale_key).is_ok());

    let mut storage = InMemoryStorage::new();
    storage.add_file("d.meta".to_string(), line(Metadata::Backup { version: 4 }));

    let view = sync_and_load(&mut cache, &mut storage, 1).unwrap();
    assert_eq!(view.records().as_slice(), &[Metadata::Backup { version: 4 }][..]);
    assert!(cache.read_final(stale_key).is_err());
    assert_eq!(cache.list_keys().unwrap(), vec![hash_handle("d.meta")]);
}

#[test]
fn empty_remote_is_bootstrapped_once() {
    // The remote listing is empty: exactly one new remote record exists
    // after the sync (the generated identity record) and the view contains
    // exactly it.
    let mut storage = InMemoryStorage::new();
    let mut cache = InMemoryCacheStore::new();

    let view = sync_and_load(&mut cache, &mut storage, 1).unwrap();

    let handles = storage.list_metadata_files().unwrap();
    assert_eq!(handles.len(), 1);
    let content = storage.open_for_read(&handles[0]).unwrap();
    let records = metadata_cache::metadata::load_metadata_lines(&content).unwrap();
    assert_eq!(records.len(), 1);
    assert!(matches!(records[0], Metadata::Identity { .. }));

    assert_eq!(view.len(), 1);
    assert_eq!(view.records()[0], records[0]);
}

#[test]
fn second_sync_converges_to_same_state() {
    // Two consecutive successful syncs with an unchanged remote set leave
    // the cache exactly as the first one did.
    let mut storage = InMemoryStorage::new();
    storage.add_file("a.meta".to_string(), line(Metadata::Backup { version: 8 }));
    storage.add_file("b.meta".to_string(), line(Metadata::Identity { id: 3 }));
    let mut cache = InMemoryCacheStore::new();

    let first = sync_and_load(&mut cache, &mut storage, 2).unwrap();
    let mut keys_first = cache.list_keys().unwrap();
    keys_first.sort();

    let second = sync_and_load(&mut cache, &mut storage, 2).unwrap();
    let mut keys_second = cache.list_keys().unwrap();
    keys_second.sort();

    assert_eq!(first.records(), second.records());
    assert_eq!(keys_first, keys_second);
    for k in keys_first {
        assert_eq!(cache.read_final(k).unwrap(), cache.read_final(k).unwrap());
    }
}

#[test]
fn convergence_from_arbitrary_local_state() {
    // Whatever the starting local state, the final key set equals the image
    // of the remote handle set.
    let mut cache = InMemoryCacheStore::new();
    for name in ["old1", "old2", "old3"] {
        let k = hash_handle(name);
        cache.create_temp(k, &line(Metadata::Backup { version: 9 })).unwrap();
        cache.promote_temp(k).unwrap();
    }
    let mut storage = InMemoryStorage::new();
    storage.add_file("old2".to_string(), line(Metadata::Backup { version: 9 }));
    storage.add_file("new1".to_string(), line(Metadata::Backup { version: 10 }));

    sync_and_load(&mut cache, &mut storage, 3).unwrap();
    let mut keys = cache.list_keys().unwrap();
    keys.sort();
    let mut expected = vec![hash_handle("old2"), hash_handle("new1")];
    expected.sort();
    assert_eq!(keys, expected);
}

#[test]
fn temp_write_without_rename_leaves_no_final_file() {
    // A simulated interruption after the temporary write but before the
    // rename: no final-named file appears, and the committed entry set is
    // untouched until the rename commits the full content.
    let mut cache = InMemoryCacheStore::new();
    let k = hash_handle("x.meta");
    let content = line(Metadata::Backup { version: 5 });
    cache.create_temp(k, &content).unwrap();
    assert!(cache.read_final(k).is_err());
    assert_eq!(cache.list_keys().unwrap(), Vec::<u64>::new());
    cache.promote_temp(k).unwrap();
    assert_eq!(cache.read_final(k).unwrap(), content);
}

#[test]
fn temp_creation_is_exclusive() {
    let mut cache = InMemoryCacheStore::new();
    let k = hash_handle("y.meta");
    cache.create_temp(k, &line(Metadata::Backup { version: 1 })).unwrap();
    assert!(cache.create_temp(k, &line(Metadata::Backup { version: 2 })).is_err());
}

#[test]
fn orphaned_temp_file_fails_the_download() {
    // A temporary file left behind by an interrupted run makes the
    // exclusive creation for its key fail on the next sync; no cleanup of
    // stale temporary files is performed.
    let mut storage = InMemoryStorage::new();
    storage.add_file("z.meta".to_string(), line(Metadata::Backup { version: 6 }));
    let mut cache = InMemoryCacheStore::new();
    let k = hash_handle("z.meta");
    cache.create_temp(k, &b"partial".to_vec()).unwrap();

    let err = sync_and_load(&mut cache, &mut storage, 1).unwrap_err();
    assert_eq!(err, SyncError::Io { op: CacheOp::CreateTemp, key: k });
    assert!(cache.read_final(k).is_err());
}

#[test]
fn malformed_cache_file_aborts_the_load() {
    // A cached up-to-date file whose content does not parse aborts the sync
    // with a parse error naming the key.
    let mut storage = InMemoryStorage::new();
    storage.add_file("w.meta".to_string(), b"backup 1\nnot a record".to_vec());
    let mut cache = InMemoryCacheStore::new();

    let err = sync_and_load(&mut cache, &mut storage, 1).unwrap_err();
    assert_eq!(err, SyncError::Parse { key: hash_handle("w.meta") });
}

#[test]
fn per_file_record_order_is_preserved() {
    // The view preserves the record order within each file.
    let mut storage = InMemoryStorage::new();
    let mut content = line(Metadata::Identity { id: 11 });
    content.push(b'\n');
    content.extend_from_slice(&line(Metadata::Backup { version: 12 }));
    content.push(b'\n');
    content.extend_from_slice(&line(Metadata::Backup { version: 13 }));
    storage.add_file("multi.meta".to_string(), content);
    let mut cache = InMemoryCacheStore::new();

    let view = sync_and_load(&mut cache, &mut storage, 1).unwrap();
    assert_eq!(
        view.records().as_slice(),
        &[
            Metadata::Identity { id: 11 },
            Metadata::Backup { version: 12 },
            Metadata::Backup { version: 13 },
        ]
    );
}
