//! Model import support: the internal model representation, a checksum
//! over file contents, and the cache an importer keeps of parsed models
//! by path, timestamp and checksum. Reading files and parsing the obj
//! format happen outside this crate; the cache logic here is pure.

use crate::geometry::{copy_vec, Point};
use vstd::prelude::*;

verus! {

/// Why an import failed.
#[derive(Clone, Copy, Debug, PartialEq, Eq, Structural)]
pub enum ImporterError {
    FileNotFound,
    PermissionDenied,
    InvalidStructure,
    Other,
}

impl ImporterError {
    /// A human-readable description of the failure.
    pub fn message(&self) -> (r: &'static str)
        ensures
            true,
    {
        match self {
            ImporterError::FileNotFound => "File was not found.",
            ImporterError::InvalidStructure => "The obj file is not valid.",
            ImporterError::PermissionDenied => "Permission denied.",
            ImporterError::Other => "Unexpected error happened.",
        }
    }
}

/// A vertex of an imported model: a position on the kernel's grid.
#[derive(Clone, Copy, Debug, PartialEq)]
pub struct Vertex {
    pub position: Point,
}

/// An imported model: a name, its vertices and a flat triangle index
/// list.
#[derive(Clone, Debug, PartialEq)]
pub struct Model {
    pub name: String,
    pub vertices: Vec<Vertex>,
    pub indices: Vec<u32>,
}

/// What the importer remembers about a path it has read.
#[derive(Clone, Copy, Debug)]
pub struct FileMetadata {
    pub checksum: u32,
    pub last_modified: u64,
}

/// Caches parsed models by content checksum, and per path the checksum
/// and timestamp last seen there.
pub struct Importer {
    path_metadata: Vec<(String, FileMetadata)>,
    loaded_models: Vec<(u32, Vec<Model>)>,
}

/// The metadata stored for a path, if any.
pub open spec fn path_lookup(entries: Seq<(String, FileMetadata)>, p: Seq<char>) -> Option<
    FileMetadata,
>
    decreases entries.len(),
{
    if entries.len() == 0 {
        None
    } else if entries[0].0@ == p {
        Some(entries[0].1)
    } else {
        path_lookup(entries.drop_first(), p)
    }
}

/// The models stored for a checksum, if any.
pub open spec fn models_lookup(entries: Seq<(u32, Vec<Model>)>, c: u32) -> Option<Seq<Model>>
    decreases entries.len(),
{
    if entries.len() == 0 {
        None
    } else if entries[0].0 == c {
        Some(entries[0].1@)
    } else {
        models_lookup(entries.drop_first(), c)
    }
}

impl Importer {
    /// The path table of the cache.
    pub closed spec fn spec_paths(&self) -> Seq<(String, FileMetadata)> {
        self.path_metadata@
    }

    /// The model table of the cache.
    pub closed spec fn spec_models(&self) -> Seq<(u32, Vec<Model>)> {
        self.loaded_models@
    }

    /// An empty cache.
    pub fn new() -> (r: Importer)
        ensures
            r.spec_paths().len() == 0,
            r.spec_models().len() == 0,
    {
        Importer { path_metadata: Vec::new(), loaded_models: Vec::new() }
    }

    /// Whether the given path is cached under exactly the given checksum,
    /// with models stored for it.
    pub fn is_cached(&self, path: &str, checksum: u32) -> (r: bool)
        ensures
            r == (path_lookup(self.spec_paths(), path@) matches Some(m) && m.checksum == checksum
                && models_lookup(self.spec_models(), checksum) is Some),
    {
        match self.find_path(path) {
            Some(m) => m.checksum == checksum && self.find_models(checksum).is_some(),
            None => false,
        }
    }

    /// Looks up the metadata recorded for a path.
    pub fn find_path(&self, path: &str) -> (r: Option<FileMetadata>)
        ensures
            r == path_lookup(self.spec_paths(), path@),
    {
        let owned = path.to_owned();
        proof {
            assert(self.path_metadata@.skip(0) =~= self.path_metadata@);
        }
        let mut i: usize = 0;
        while i < self.path_metadata.len()
            invariant
                0 <= i <= self.path_metadata@.len(),
                owned@ == path@,
                path_lookup(self.path_metadata@.skip(i as int), path@) == path_lookup(
                    self.path_metadata@,
                    path@,
                ),
            decreases self.path_metadata@.len() - i,
        {
            proof {
                assert(self.path_metadata@.skip(i as int)[0] == self.path_metadata@[i as int]);
                assert(self.path_metadata@.skip(i as int).drop_first() =~= self.path_metadata@.skip(
                    i + 1,
                ));
            }
            if self.path_metadata[i].0 == owned {
                return Some(self.path_metadata[i].1);
            }
            i = i + 1;
        }
        proof {
            assert(self.path_metadata@.skip(self.path_metadata@.len() as int).len() == 0);
        }
        None
    }

    /// Looks up the models stored for a checksum.
    pub fn find_models(&self, checksum: u32) -> (r: Option<&Vec<Model>>)
        ensures
            match r {
                Some(ms) => models_lookup(self.spec_models(), checksum) == Some(ms@),
                None => models_lookup(self.spec_models(), checksum) is None,
            },
    {
        proof {
            assert(self.loaded_models@.skip(0) =~= self.loaded_models@);
        }
        let mut i: usize = 0;
        while i < self.loaded_models.len()
            invariant
                0 <= i <= self.loaded_models@.len(),
                models_lookup(self.loaded_models@.skip(i as int), checksum) == models_lookup(
                    self.loaded_models@,
                    checksum,
                ),
            decreases self.loaded_models@.len() - i,
        {
            proof {
                assert(self.loaded_models@.skip(i as int)[0] == self.loaded_models@[i as int]);
                assert(self.loaded_models@.skip(i as int).drop_first() =~= self.loaded_models@.skip(
                    i + 1,
                ));
            }
            if self.loaded_models[i].0 == checksum {
                return Some(&self.loaded_models[i].1);
            }
            i = i + 1;
        }
        proof {
            assert(self.loaded_models@.skip(self.loaded_models@.len() as int).len() == 0);
        }
        None
    }

    /// Records what was last seen at a path: its checksum and timestamp.
    /// A fresh entry shadows any earlier one for the same path; every
    /// other path keeps its metadata.
    pub fn record_path(&mut self, path: String, checksum: u32, last_modified: u64)
        ensures
            path_lookup(final(self).spec_paths(), path@) == Some(
                FileMetadata { checksum, last_modified },
            ),
            forall|q: Seq<char>|
                q != path@ ==> #[trigger] path_lookup(final(self).spec_paths(), q) == path_lookup(
                    old(self).spec_paths(),
                    q,
                ),
            final(self).spec_models() == old(self).spec_models(),
    {
        let entry = (path, FileMetadata { checksum, last_modified });
        self.path_metadata.insert(0, entry);
        proof {
            assert(self.path_metadata@.drop_first() =~= old(self).path_metadata@);
        }
    }

    /// Stores parsed models under their content checksum. A fresh entry
    /// shadows any earlier one for the same checksum; every other
    /// checksum keeps its models.
    pub fn store_models(&mut self, checksum: u32, models: Vec<Model>)
        ensures
            models_lookup(final(self).spec_models(), checksum) == Some(models@),
            forall|c: u32|
                c != checksum ==> #[trigger] models_lookup(final(self).spec_models(), c)
                    == models_lookup(old(self).spec_models(), c),
            final(self).spec_paths() == old(self).spec_paths(),
    {
        let entry = (checksum, models);
        self.loaded_models.insert(0, entry);
        proof {
            assert(self.loaded_models@.drop_first() =~= old(self).loaded_models@);
        }
    }
}

/// The CRC-32 digest of a byte sequence, as the crc32fast crate computes
/// it. The digest depends on the bytes alone.
pub uninterp spec fn crc32_of(bytes: Seq<u8>) -> u32;

/// Relies on crc32fast's Hasher: feeding it the whole buffer and
/// finalizing yields the CRC-32 (IEEE) digest of the buffer, a pure
/// function of the bytes.
#[verifier::external_body]
pub fn calculate_checksum(string: &[u8]) -> (r: u32)
    ensures
        r == crc32_of(string@),
{
    let mut hasher = crc32fast::Hasher::new();
    hasher.update(string);
    hasher.finalize()
}

/// Builds a model from a name, a flat coordinate list (three coordinates
/// per vertex) and a triangle index list.
#[verifier::loop_isolation(false)]
pub fn model_from_flat(name: String, positions: Vec<i64>, indices: Vec<u32>) -> (r: Model)
    requires
        positions@.len() % 3 == 0,
    ensures
        r.name == name,
        r.indices == indices,
        r.vertices@.len() == positions@.len() / 3,
        forall|k: int|
            0 <= k < r.vertices@.len() ==> #[trigger] r.vertices@[k] == (Vertex {
                position: Point {
                    x: positions@[3 * k],
                    y: positions@[3 * k + 1],
                    z: positions@[3 * k + 2],
                },
            }),
{
    let mut vertices: Vec<Vertex> = Vec::new();
    let mut k: usize = 0;
    while k < positions.len()
        invariant
            k % 3 == 0,
            0 <= k <= positions@.len(),
            vertices@.len() == k / 3,
            forall|j: int|
                0 <= j < vertices@.len() ==> #[trigger] vertices@[j] == (Vertex {
                    position: Point {
                        x: positions@[3 * j],
                        y: positions@[3 * j + 1],
                        z: positions@[3 * j + 2],
                    },
                }),
        decreases positions@.len() - k,
    {
        proof {
            assert(k + 3 <= positions@.len()) by (nonlinear_arith)
                requires
                    k % 3 == 0,
                    positions@.len() % 3 == 0,
                    k < positions@.len(),
            ;
        }
        vertices.push(
            Vertex {
                position: Point {
                    x: positions[k],
                    y: positions[k + 1],
                    z: positions[k + 2],
                },
            },
        );
        k = k + 3;
    }
    Model { name, vertices, indices }
}

} // verus!
