//! A standalone-binary packaging library: a trailer codec that lets an
//! executable carry an embedded archive, and a read-only virtual filesystem
//! serving file queries from that archive.

use vstd::prelude::*;

mod compile;
mod errors;
mod fs;
mod metadata;
mod packaging;
mod paths;
mod text;
mod zip_fs;
mod zip_io;

pub use compile::{luau_bytecode, luau_diagnostic};
pub use packaging::{
    check_output_path, default_output_path, embed_entry_name, spec_default_output, BuildCommand,
};
pub use errors::LuneError;
pub use fs::FileSystem;
pub use metadata::{
    attach_trailer, extras_view, is_standalone, lemma_decode_rejects_malformed, lemma_encode_len,
    lemma_trailer_round_trip, lemma_trailer_round_trip_prefixed, spec_decode, spec_encode,
    spec_entries_accepted, spec_is_standalone, spec_magic, spec_standalone_entries, Metadata,
};
pub use paths::{
    bytes_eq, lemma_normalize_idempotent, normalize_path, spec_normalize,
    spec_replace_backslashes, spec_starts_with, spec_strip_cwd, spec_trim_slashes,
    starts_with_bytes,
};
pub use zip_fs::{
    lemma_children_complete, lemma_children_distinct, lemma_read_iff_has_entry, spec_child_of,
    spec_children, spec_first_segment, spec_has_entry, spec_is_dir, spec_join, spec_read,
    spec_read_dir, spec_seg_len, views_of, ZipFileSystem,
};
pub use zip_io::{spec_extracted_entries, zip_archive_bytes, zip_parse, zw_accepts, zw_finishes};

verus! {

} // verus!
