use vstd::prelude::*;

use crate::errors::LuneError;

verus! {

/// A capability interface for read-only filesystem operations, polymorphic
/// over the backend: callers hold a backend by this trait and never branch on
/// its type. Backends answer with their own guarantees; the archive-backed
/// one states exact contracts on its inherent methods.
pub trait FileSystem {
    fn is_file(&self, path: &[u8]) -> bool;

    fn is_dir(&self, path: &[u8]) -> bool;

    fn read(&self, path: &[u8]) -> Result<Vec<u8>, LuneError>;

    fn read_to_string(&self, path: &[u8]) -> Result<String, LuneError>;

    fn read_dir(&self, path: &[u8]) -> Result<Vec<Vec<u8>>, LuneError>;
}

} // verus!
