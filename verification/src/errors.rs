use vstd::prelude::*;

verus! {

/// Errors across the packaging pipeline and the virtual filesystem.
#[derive(Clone, Debug, PartialEq, Eq)]
pub enum LuneError {
    /// The byte blob is not a standalone binary: too short, missing marker,
    /// or the declared payload length exceeds the available prefix.
    MalformedTrailer,
    /// The embedded archive bytes could not be parsed, an entry could not be
    /// read, or a fresh archive could not be assembled.
    InvalidArchive,
    /// An archive lookup missed: no entry under the given key.
    NotFound,
    /// Entry content requested as text is not valid UTF-8.
    InvalidEncoding,
    /// The script source failed to compile to bytecode; carries the
    /// compiler's original diagnostic.
    CompileFailure(String),
    /// The packaging output path equals the input path.
    OutputPathConflict,
}

} // verus!
