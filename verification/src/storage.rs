//! The remote catalog client: the collaborator contract the engine consumes,
//! and an in-memory catalog that satisfies it.
//!
//! The engine only ever lists the remote metadata files, opens one for
//! reading, and — during bootstrap — appends one new metadata line.
//! Production backends (object stores, disks) implement the same trait
//! outside the verified library; the in-memory catalog below is the verified
//! reference implementation and the test double.

use crate::errors::StorageError;
use crate::text::copy_bytes;
use vstd::prelude::*;

verus! {

/// An opaque locator for one remote metadata blob. Immutable once listed.
pub type FileHandle = String;

/// The model of one remote metadata file: its handle and its full content.
#[verifier::ext_equal]
pub ghost struct RemoteFile {
    pub handle: Seq<char>,
    pub content: Seq<u8>,
}

/// The remote catalog client.
///
/// Any operation may fail (transport, authentication, write errors); the
/// contracts state what holds of the catalog whenever an operation reports
/// success, and nothing more.
pub trait BackupStorage: Sized {
    /// The catalog's current contents, one entry per remote metadata file,
    /// in listing order. Left arbitrary unless an implementation defines it:
    /// an implementation outside the verified library inherits this default,
    /// and nothing is then known of its catalog.
    open spec fn catalog(&self) -> Seq<RemoteFile> {
        vstd::pervasive::arbitrary()
    }

    /// List the handles of all remote metadata files, in catalog order.
    fn list_metadata_files(&self) -> (r: Result<Vec<FileHandle>, StorageError>)
        ensures
            r matches Ok(v) ==> v@.len() == self.catalog().len() && forall|i: int|
                0 <= i < v@.len() ==> (#[trigger] v@[i])@ == self.catalog()[i].handle,
    ;

    /// Read the full byte stream of one remote metadata file; succeeds only
    /// with the complete content of a catalog entry carrying this handle.
    fn open_for_read(&self, file_handle: &FileHandle) -> (r: Result<Vec<u8>, StorageError>)
        ensures
            r matches Ok(bytes) ==> exists|i: int|
                0 <= i < self.catalog().len() && (#[trigger] self.catalog()[i]).handle
                    == file_handle@ && bytes@ == self.catalog()[i].content,
    ;

    /// Append one new metadata file holding exactly the given line. Used
    /// only by bootstrap.
    fn save_metadata_line(&mut self, name: &String, line: &Vec<u8>) -> (r: Result<
        (),
        StorageError,
    >)
        ensures
            r is Ok ==> exists|h: Seq<char>|
                final(self).catalog() == old(self).catalog().push(
                    RemoteFile { handle: h, content: line@ },
                ),
    ;
}

/// An in-memory remote catalog: the verified reference implementation of
/// `BackupStorage`, also used as the test double.
pub struct InMemoryStorage {
    files: Vec<(FileHandle, Vec<u8>)>,
}

impl InMemoryStorage {
    /// An empty catalog.
    pub fn new() -> (r: InMemoryStorage)
        ensures
            r.catalog() == Seq::<RemoteFile>::empty(),
    {
        let r = InMemoryStorage { files: Vec::new() };
        proof {
            assert(r.catalog() =~= Seq::<RemoteFile>::empty());
        }
        r
    }

    /// Add one remote file with the given handle and content.
    pub fn add_file(&mut self, handle: FileHandle, content: Vec<u8>)
        ensures
            final(self).catalog() == old(self).catalog().push(
                RemoteFile { handle: handle@, content: content@ },
            ),
    {
        let ghost h = handle@;
        let ghost c = content@;
        self.files.push((handle, content));
        proof {
            assert(self.catalog() =~~= old(self).catalog().push(
                RemoteFile { handle: h, content: c },
            ));
        }
    }
}

impl BackupStorage for InMemoryStorage {
    closed spec fn catalog(&self) -> Seq<RemoteFile> {
        Seq::new(
            self.files@.len(),
            |i: int| RemoteFile { handle: self.files@[i].0@, content: self.files@[i].1@ },
        )
    }

    fn list_metadata_files(&self) -> (r: Result<Vec<FileHandle>, StorageError>) {
        let mut out: Vec<FileHandle> = Vec::new();
        let mut i: usize = 0;
        while i < self.files.len()
            invariant
                0 <= i <= self.files@.len(),
                out@.len() == i,
                forall|j: int| 0 <= j < i ==> (#[trigger] out@[j])@ == self.catalog()[j].handle,
            decreases self.files@.len() - i,
        {
            let h: FileHandle = self.files[i].0.clone();
            out.push(h);
            i = i + 1;
        }
        Ok(out)
    }

    fn open_for_read(&self, file_handle: &FileHandle) -> (r: Result<Vec<u8>, StorageError>) {
        let mut i: usize = 0;
        while i < self.files.len()
            invariant
                0 <= i <= self.files@.len(),
            decreases self.files@.len() - i,
        {
            if self.files[i].0 == *file_handle {
                let bytes = copy_bytes(&self.files[i].1);
                proof {
                    assert((self.catalog()[i as int]).handle == file_handle@ && bytes@
                        == self.catalog()[i as int].content);
                }
                return Ok(bytes);
            }
            i = i + 1;
        }
        Err(StorageError)
    }

    fn save_metadata_line(&mut self, name: &String, line: &Vec<u8>) -> (r: Result<
        (),
        StorageError,
    >) {
        let handle: FileHandle = name.clone();
        let ghost h = handle@;
        let content = copy_bytes(line);
        self.files.push((handle, content));
        proof {
            assert(self.catalog() =~~= old(self).catalog().push(
                RemoteFile { handle: h, content: line@ },
            ));
        }
        Ok(())
    }
}

} // verus!
