//! The values that describe a scan: the files it found and what was asked.

use vstd::prelude::*;
use vstd::std_specs::cmp::PartialEqSpecImpl;
use crate::equality::lawful_eq;

verus! {

/// A candidate image: where it lies, its size in bytes and its creation
/// time in milliseconds since the Unix epoch.
#[derive(Debug)]
pub struct FileInfo {
    path: String,
    size: u64,
    date: u64,
}

impl FileInfo {
    pub fn new(path: String, size: u64, date: u64) -> (info: Self)
        ensures
            info.path()@ == path@,
            info.size() == size,
            info.date() == date,
    {
        FileInfo { path, size, date }
    }

    pub closed spec fn path(&self) -> String {
        self.path
    }

    pub closed spec fn size(&self) -> u64 {
        self.size
    }

    pub closed spec fn date(&self) -> u64 {
        self.date
    }

    pub fn get_path(&self) -> (path: &String)
        ensures
            path@ == self.path()@,
    {
        &self.path
    }

    pub fn get_size(&self) -> (size: u64)
        ensures
            size == self.size(),
    {
        self.size
    }

    pub fn get_date(&self) -> (date: u64)
        ensures
            date == self.date(),
    {
        self.date
    }
}

impl Clone for FileInfo {
    fn clone(&self) -> (copy: Self)
        ensures
            copy == *self,
    {
        FileInfo { path: self.path.clone(), size: self.size, date: self.date }
    }
}

/// Two files are the same file if they lie at the same path.
impl PartialEq for FileInfo {
    fn eq(&self, other: &Self) -> (same: bool) {
        self.path == other.path
    }
}

impl Eq for FileInfo {

}

impl PartialEqSpecImpl for FileInfo {
    open spec fn obeys_eq_spec() -> bool {
        true
    }

    open spec fn eq_spec(&self, other: &Self) -> bool {
        self.path()@ == other.path()@
    }
}

/// Files compare by an equivalence.
pub proof fn lemma_file_info_eq_is_lawful()
    ensures
        lawful_eq::<FileInfo>(),
{
}

/// The perceptual hash that a scan computes.
#[derive(Clone, Copy, Debug, PartialEq, Eq, Structural, Hash)]
pub enum HashType {
    /// The mean hash.
    AHash,
    /// The mean hash of the image's frequency domain.
    PHash,
    /// The gradient hash.
    DHash,
}

/// How a hash compares the pixels of the reduced image.
#[derive(Clone, Copy, Debug, PartialEq, Eq, Structural)]
pub enum HashAlgorithm {
    /// Each pixel against the mean of all.
    Mean,
    /// Each pixel against its neighbour.
    Gradient,
}

impl HashType {
    /// The comparison that the hash uses.
    pub fn algorithm(self) -> (algorithm: HashAlgorithm)
        ensures
            algorithm == (match self {
                HashType::AHash => HashAlgorithm::Mean,
                HashType::PHash => HashAlgorithm::Mean,
                HashType::DHash => HashAlgorithm::Gradient,
            }),
    {
        match self {
            HashType::AHash => HashAlgorithm::Mean,
            HashType::PHash => HashAlgorithm::Mean,
            HashType::DHash => HashAlgorithm::Gradient,
        }
    }

    /// Whether the image goes through a discrete cosine transform first.
    pub fn uses_dct(self) -> (dct: bool)
        ensures
            dct == (self == HashType::PHash),
    {
        match self {
            HashType::AHash => false,
            HashType::PHash => true,
            HashType::DHash => false,
        }
    }
}

/// What a caller asks of a scan.
#[derive(Debug)]
pub struct AnalyzeRequest {
    /// The largest Hamming distance at which two images count as similar.
    pub dist: u32,
    /// The directory to scan.
    pub path: String,
    pub hash_type: HashType,
    /// The width and the height of the hash, in bits.
    pub hash_size: u32,
}

/// Under which a hash is remembered: a hash is reused only for the same
/// kind of hash, of the same size, of the file at the same path.
#[derive(Debug)]
pub struct CacheKey {
    pub hash_type: HashType,
    pub hash_size: u32,
    pub path: String,
}

impl AnalyzeRequest {
    /// The key under which this request remembers the hash of the file at
    /// `file_path`.
    pub fn cache_key(&self, file_path: String) -> (key: CacheKey)
        ensures
            key.hash_type == self.hash_type,
            key.hash_size == self.hash_size,
            key.path@ == file_path@,
    {
        CacheKey { hash_type: self.hash_type, hash_size: self.hash_size, path: file_path }
    }
}

impl PartialEq for CacheKey {
    fn eq(&self, other: &Self) -> (same: bool) {
        self.hash_type == other.hash_type && self.hash_size == other.hash_size && self.path
            == other.path
    }
}

impl Eq for CacheKey {

}

impl PartialEqSpecImpl for CacheKey {
    open spec fn obeys_eq_spec() -> bool {
        true
    }

    open spec fn eq_spec(&self, other: &Self) -> bool {
        &&& self.hash_type == other.hash_type
        &&& self.hash_size == other.hash_size
        &&& self.path@ == other.path@
    }
}

/// Cache keys compare by an equivalence.
pub proof fn lemma_cache_key_eq_is_lawful()
    ensures
        lawful_eq::<CacheKey>(),
{
}

} // verus!
