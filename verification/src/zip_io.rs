use vstd::prelude::*;

use crate::errors::LuneError;
use std::io::Cursor;
use vstd::utf8::encode_utf8;
use zip::read::ZipArchive;
use zip::write::ZipWriter;

verus! {

/// The entries of a written archive as the extractor hands them back: each
/// name as its UTF-8 bytes, each content unchanged.
pub open spec fn spec_extracted_entries(entries: Seq<(Seq<char>, Seq<u8>)>) -> Seq<
    (Seq<u8>, Seq<u8>),
> {
    entries.map_values(|e: (Seq<char>, Seq<u8>)| (encode_utf8(e.0), e.1))
}

/// An in-memory archive writer. Verus sees nothing of the field; the
/// wrappers below state what the writer holds through `zw_entries`.
#[verifier::external_body]
pub struct ArchiveWriter {
    inner: ZipWriter<Cursor<Vec<u8>>>,
}

/// The entries of a fully extracted archive, in index order: raw name bytes
/// and decompressed content of each. `None` when the bytes are not a valid
/// archive or some entry's content cannot be read. Parsing and extraction
/// depend on the bytes alone.
pub uninterp spec fn zip_parse(data: Seq<u8>) -> Option<Seq<(Seq<u8>, Seq<u8>)>>;

/// The entries written to an in-memory archive writer so far, in order.
pub uninterp spec fn zw_entries(w: &ArchiveWriter) -> Seq<(Seq<char>, Seq<u8>)>;

/// Whether an in-memory writer that was fed all but the last of these
/// entries accepts the last one (the writer rejects, for instance, a name
/// duplicating an earlier entry's); a function of the entries alone.
pub uninterp spec fn zw_accepts(entries: Seq<(Seq<char>, Seq<u8>)>) -> bool;

/// Whether an in-memory writer holding these entries can write its closing
/// records and hand the archive back; a function of the entries alone.
pub uninterp spec fn zw_finishes(entries: Seq<(Seq<char>, Seq<u8>)>) -> bool;

/// The finished archive bytes for a sequence of entries, written with the
/// fixed storage mode, permissions and timestamp this crate uses; a function
/// of the entries alone within one build (one header byte records the build's
/// target family, so the bytes are fixed per target).
pub uninterp spec fn zip_archive_bytes(entries: Seq<(Seq<char>, Seq<u8>)>) -> Seq<u8>;

/// Relies on zip::read::ZipArchive::{new, len, by_index}, ZipFile::name_raw
/// and std::io::Read::read_to_end: reads the central directory of the given
/// bytes and every entry's raw name and decompressed content, in index
/// order; fails exactly on bytes that are not a fully readable archive.
#[verifier::external_body]
pub(crate) fn zip_extract(data: Vec<u8>) -> (r: Result<Vec<(Vec<u8>, Vec<u8>)>, LuneError>)
    ensures
        match r {
            Ok(es) => zip_parse(data@) == Some(
                es@.map_values(|e: (Vec<u8>, Vec<u8>)| (e.0@, e.1@)),
            ),
            Err(e) => zip_parse(data@) is None && e == LuneError::InvalidArchive,
        },
{
    let mut a = ZipArchive::new(Cursor::new(data)).map_err(|_| LuneError::InvalidArchive)?;
    let mut es = Vec::new();
    for i in 0..a.len() {
        let mut f = a.by_index(i).map_err(|_| LuneError::InvalidArchive)?;
        let name = f.name_raw().to_vec();
        let mut content = Vec::new();
        std::io::Read::read_to_end(&mut f, &mut content).map_err(|_| LuneError::InvalidArchive)?;
        es.push((name, content));
    }
    Ok(es)
}

/// Relies on zip::write::ZipWriter::new over an in-memory cursor: a fresh
/// writer holding no entries.
#[verifier::external_body]
pub(crate) fn zw_new() -> (w: ArchiveWriter)
    ensures
        zw_entries(&w) == Seq::<(Seq<char>, Seq<u8>)>::empty(),
{
    ArchiveWriter { inner: ZipWriter::new(Cursor::new(Vec::new())) }
}

/// Relies on zip::write::ZipWriter::start_file — with storage (no
/// compression) mode, fixed permissions and the fixed default timestamp —
/// and std::io::Write::write_all for the content: appends one entry, and
/// succeeds or fails as a function of the entries so far and the new one.
#[verifier::external_body]
pub(crate) fn zw_add(w: &mut ArchiveWriter, name: &str, content: &[u8]) -> (r: Result<
    (),
    LuneError,
>)
    ensures
        r is Ok <==> zw_accepts(zw_entries(old(w)).push((name@, content@))),
        match r {
            Ok(u) => zw_entries(final(w)) == zw_entries(old(w)).push((name@, content@)),
            Err(e) => e == LuneError::InvalidArchive,
        },
{
    let options = zip::write::SimpleFileOptions::default().compression_method(
        zip::CompressionMethod::Stored,
    ).unix_permissions(0o755);
    if w.inner.start_file(name, options).is_err() {
        return Err(LuneError::InvalidArchive);
    }
    if std::io::Write::write_all(&mut w.inner, content).is_err() {
        return Err(LuneError::InvalidArchive);
    }
    Ok(())
}

/// Relies on zip::write::ZipWriter::finish and Cursor::into_inner: writes
/// the closing records and returns the archive's bytes, determined by the
/// entries written and the fixed options alone; succeeds or fails as a
/// function of those entries. The writer stores each name's UTF-8 bytes and
/// each content verbatim (and rejects duplicate names), so the produced
/// bytes extract back to exactly the written entries.
#[verifier::external_body]
pub(crate) fn zw_finish(w: ArchiveWriter) -> (r: Result<Vec<u8>, LuneError>)
    ensures
        r is Ok <==> zw_finishes(zw_entries(&w)),
        match r {
            Ok(data) => data@ == zip_archive_bytes(zw_entries(&w)) && zip_parse(data@) == Some(
                spec_extracted_entries(zw_entries(&w)),
            ),
            Err(e) => e == LuneError::InvalidArchive,
        },
{
    match w.inner.finish() {
        Ok(c) => Ok(c.into_inner()),
        Err(_) => Err(LuneError::InvalidArchive),
    }
}

} // verus!
