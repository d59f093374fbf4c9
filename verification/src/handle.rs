use crate::error::StoreError;
use crate::format::encode;
use crate::model::StoreModel;
use crate::store::{created, inserted, loaded, searched, VectorStore};
use vstd::prelude::*;

verus! {

/// What the caller found at the handle's path when it tried to read it.
#[derive(Debug)]
pub enum FileProbe {
    /// No file exists at the path.
    Absent,
    /// A file exists and these are its bytes.
    Present(Vec<u8>),
    /// The file system failed: the path could not be examined or read.
    Failed,
}

/// What a handle stands for: the path it is bound to and the store it owns.
pub struct HandleModel {
    pub path: Seq<char>,
    pub store: StoreModel,
}

/// A store bound to a file path. The handle itself performs no input or
/// output: the caller reads the file before `open` and writes the image
/// that `save` returns. Nothing is written unless the caller saves.
#[derive(Debug)]
pub struct DB {
    path: String,
    store: VectorStore,
}

impl View for DB {
    type V = HandleModel;

    closed spec fn view(&self) -> HandleModel {
        HandleModel { path: self.path@, store: self.store@ }
    }
}

/// The dimension that a caller expects of an existing file: zero stands for
/// no expectation.
pub open spec fn expectation(dim: usize) -> Option<u64> {
    if dim == 0 {
        None
    } else {
        Some(dim as u64)
    }
}

/// The store that opening gives, or the reason why it is refused.
///
/// A failure of the file system is an input/output error. An existing file
/// is loaded: it must be a well-formed image, and a non-zero `dim` must be
/// its dimension. Where no file exists an empty store of dimension `dim` is
/// made, which needs a non-zero `dim`.
pub open spec fn opened(dim: usize, file: FileProbe) -> Result<StoreModel, StoreError> {
    match file {
        FileProbe::Failed => Err(StoreError::IoError),
        FileProbe::Absent => created(dim as u64),
        FileProbe::Present(bytes) => loaded(bytes@, expectation(dim)),
    }
}

impl DB {
    /// Opens the index at `path`, given what the caller found there.
    pub fn open(path: &str, dim: usize, file: FileProbe) -> (r: Result<DB, StoreError>)
        ensures
            match r {
                Ok(db) => db@.path == path@ && opened(dim, file) == Ok::<StoreModel, StoreError>(
                    db@.store,
                ),
                Err(e) => opened(dim, file) == Err::<StoreModel, StoreError>(e),
            },
    {
        let made = match file {
            FileProbe::Failed => Err(StoreError::IoError),
            FileProbe::Absent => VectorStore::new(dim as u64),
            FileProbe::Present(bytes) => {
                let expected = if dim == 0 {
                    None
                } else {
                    Some(dim as u64)
                };
                VectorStore::load(bytes.as_slice(), expected)
            },
        };
        match made {
            Ok(store) => Ok(DB { path: path.to_owned(), store }),
            Err(e) => Err(e),
        }
    }

    /// The path that the handle is bound to.
    pub fn path(&self) -> (p: &str)
        ensures
            p@ == self@.path,
    {
        self.path.as_str()
    }

    /// The store that the handle owns.
    pub fn store(&self) -> (s: &VectorStore)
        ensures
            s@ == self@.store,
    {
        &self.store
    }

    /// Appends `(id, vec)` to the store in memory. A vector of the wrong
    /// length is refused and nothing changes.
    pub fn add(&mut self, id: u64, vec: &[u32]) -> (r: Result<(), StoreError>)
        ensures
            final(self)@.path == old(self)@.path,
            match r {
                Ok(()) => inserted(old(self)@.store, id, vec@) == Ok::<StoreModel, StoreError>(
                    final(self)@.store,
                ),
                Err(e) => inserted(old(self)@.store, id, vec@) == Err::<StoreModel, StoreError>(e)
                    && final(self)@ == old(self)@,
            },
    {
        self.store.insert(id, vec)
    }

    /// The `k` nearest entries for a query, nearest first: their identifiers
    /// and their distances. `distances` holds the bit pattern of the squared
    /// distance of each entry, in insertion order. The handle is not changed.
    pub fn search(&self, query: &[u32], distances: &[u32], k: usize) -> (r: Result<
        (Vec<u64>, Vec<u32>),
        StoreError,
    >)
        ensures
            match r {
                Ok((ids, dists)) => searched(self@.store, query@, distances@, k as nat) == Ok::<
                    (Seq<u64>, Seq<u32>),
                    StoreError,
                >((ids@, dists@)),
                Err(e) => searched(self@.store, query@, distances@, k as nat) == Err::<
                    (Seq<u64>, Seq<u32>),
                    StoreError,
                >(e),
            },
    {
        self.store.search(query, distances, k)
    }

    /// The bytes to write to the handle's path, replacing the whole file.
    /// Opening a file with these bytes, with no expectation or with the
    /// store's own dimension, gives the store as it is now.
    pub fn save(&self) -> (image: Vec<u8>)
        ensures
            image@ == encode(self@.store),
            opened(0, FileProbe::Present(image)) == Ok::<StoreModel, StoreError>(self@.store),
            self@.store.dimension <= usize::MAX ==> opened(
                self@.store.dimension as usize,
                FileProbe::Present(image),
            ) == Ok::<StoreModel, StoreError>(self@.store),
    {
        self.store.serialize()
    }

    /// What `save` reports once the caller has tried to write the image:
    /// success if it was written, an input/output error if it was not.
    pub fn written(ok: bool) -> (r: Result<(), StoreError>)
        ensures
            r == if ok {
                Ok::<(), StoreError>(())
            } else {
                Err::<(), StoreError>(StoreError::IoError)
            },
    {
        if ok {
            Ok(())
        } else {
            Err(StoreError::IoError)
        }
    }

    /// Gives the handle up and releases the store. What was added since the
    /// last `save` is not written anywhere.
    pub fn close(self) {
    }
}

} // verus!
