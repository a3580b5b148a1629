use vstd::prelude::*;

use crate::compile::{compile_luau, luau_bytecode, luau_diagnostic};
use crate::errors::LuneError;
use crate::zip_io::{
    spec_extracted_entries, zip_archive_bytes, zip_parse, zw_accepts, zw_add, zw_entries,
    zw_finish, zw_finishes, zw_new,
};

verus! {

/// The fixed 8-byte marker closing a standalone binary's trailer: `cr3sc3nt`.
pub open spec fn spec_magic() -> Seq<u8> {
    seq![0x63u8, 0x72u8, 0x33u8, 0x73u8, 0x63u8, 0x33u8, 0x6eu8, 0x74u8]
}

/// The 8-byte big-endian encoding of a 64-bit value.
pub open spec fn spec_u64_be(n: u64) -> Seq<u8> {
    seq![
        (n >> 56) as u8,
        (n >> 48) as u8,
        (n >> 40) as u8,
        (n >> 32) as u8,
        (n >> 24) as u8,
        (n >> 16) as u8,
        (n >> 8) as u8,
        n as u8,
    ]
}

/// The 64-bit value read from 8 bytes in big-endian order.
pub open spec fn spec_be_val(s: Seq<u8>) -> u64
    recommends
        s.len() == 8,
{
    (((s[0] as u64) << 56) | ((s[1] as u64) << 48) | ((s[2] as u64) << 40) | ((s[3] as u64) << 32)
        | ((s[4] as u64) << 24) | ((s[5] as u64) << 16) | ((s[6] as u64) << 8) | (s[7] as u64))
}

/// The trailer layout: archive bytes, then the archive length as 8 bytes
/// big-endian, then the fixed marker.
pub open spec fn spec_encode(archive: Seq<u8>) -> Seq<u8>
    recommends
        archive.len() <= u64::MAX,
{
    archive + spec_u64_be(archive.len() as u64) + spec_magic()
}

/// Trailer decoding: `None` when the blob is shorter than 16 bytes, does not
/// end in the marker, or declares a length exceeding the available prefix;
/// otherwise the declared number of bytes just before the length field.
pub open spec fn spec_decode(blob: Seq<u8>) -> Option<Seq<u8>> {
    if blob.len() < 16 {
        None
    } else if blob.subrange(blob.len() - 8, blob.len() as int) != spec_magic() {
        None
    } else {
        let l = spec_be_val(blob.subrange(blob.len() - 16, blob.len() - 8)) as int;
        if l > blob.len() - 16 {
            None
        } else {
            Some(blob.subrange(blob.len() - 16 - l, blob.len() - 16))
        }
    }
}

/// Metadata for a standalone binary: the archive carried in the trailer.
/// `from_bytes` discovers it at the tail of an executable's bytes and
/// `to_bytes` lays it out for appending.
#[derive(Debug, Clone)]
pub struct Metadata {
    pub zip_data: Vec<u8>,
}

/// Reading back the 8 big-endian bytes of a value yields the value.
proof fn lemma_be_round_trip(n: u64)
    ensures
        spec_be_val(spec_u64_be(n)) == n,
{
    assert((((((n >> 56) as u8) as u64) << 56) | ((((n >> 48) as u8) as u64) << 48) | ((((n >> 40)
        as u8) as u64) << 40) | ((((n >> 32) as u8) as u64) << 32) | ((((n >> 24) as u8) as u64)
        << 24) | ((((n >> 16) as u8) as u64) << 16) | ((((n >> 8) as u8) as u64) << 8) | ((n
        as u8) as u64)) == n) by (bit_vector);
}

/// Whether a byte blob ends in the trailer marker: the quick test the
/// bootstrap makes on the running executable's own bytes before attempting a
/// full decode.
pub open spec fn spec_is_standalone(bytes: Seq<u8>) -> bool {
    bytes.len() >= 8 && bytes.subrange(bytes.len() - 8, bytes.len() as int) == spec_magic()
}

/// True exactly when the blob ends in the 8-byte trailer marker.
pub fn is_standalone(bytes: &[u8]) -> (r: bool)
    ensures
        r == spec_is_standalone(bytes@),
{
    let n = bytes.len();
    if n < 8 {
        return false;
    }
    let magic_ok = bytes[n - 8] == 0x63 && bytes[n - 7] == 0x72 && bytes[n - 6] == 0x33
        && bytes[n - 5] == 0x73 && bytes[n - 4] == 0x63 && bytes[n - 3] == 0x33
        && bytes[n - 2] == 0x6e && bytes[n - 1] == 0x74;
    proof {
        let s = bytes@.subrange(n - 8, n as int);
        assert forall|i: int| 0 <= i < 8 implies s[i] == bytes@[n - 8 + i] by {}
        if magic_ok {
            assert(s =~= spec_magic());
        } else {
            assert(s != spec_magic()) by {
                if s == spec_magic() {
                    assert(s[0] == 0x63 && s[1] == 0x72 && s[2] == 0x33 && s[3] == 0x73 && s[4]
                        == 0x63 && s[5] == 0x33 && s[6] == 0x6e && s[7] == 0x74);
                }
            }
        }
    }
    magic_ok
}

/// A blob shorter than 16 bytes, or one whose final 8 bytes are not the
/// marker, never decodes: it is "not standalone", with no access out of
/// bounds.
pub proof fn lemma_decode_rejects_malformed(blob: Seq<u8>)
    requires
        blob.len() < 16 || blob.subrange(blob.len() - 8, blob.len() as int) != spec_magic(),
    ensures
        spec_decode(blob) is None,
{
}

/// The trailer adds exactly 16 bytes: a packaged binary is the base
/// executable plus the archive plus 16.
pub proof fn lemma_encode_len(archive: Seq<u8>)
    ensures
        spec_encode(archive).len() == archive.len() + 16,
{
}

/// Decoding inverts encoding: for every archive byte sequence, the trailer
/// written for it is recognized and yields exactly that sequence back.
pub proof fn lemma_trailer_round_trip(archive: Seq<u8>)
    requires
        archive.len() <= u64::MAX,
    ensures
        spec_decode(spec_encode(archive)) == Some(archive),
{
    let e = spec_encode(archive);
    let n = archive.len() as int;
    assert(e.len() == n + 16);
    assert(e.subrange(n + 8, n + 16) =~= spec_magic());
    assert(e.subrange(n, n + 8) =~= spec_u64_be(archive.len() as u64));
    lemma_be_round_trip(archive.len() as u64);
    assert(e.subrange(0, n) =~= archive);
}

/// Decoding finds the trailer at the tail of any host binary: whatever
/// bytes precede the encoded trailer, decoding returns the archive.
pub proof fn lemma_trailer_round_trip_prefixed(prefix: Seq<u8>, archive: Seq<u8>)
    requires
        archive.len() <= u64::MAX,
    ensures
        spec_decode(prefix + spec_encode(archive)) == Some(archive),
{
    let e = prefix + spec_encode(archive);
    let p = prefix.len() as int;
    let n = archive.len() as int;
    assert(e.len() == p + n + 16);
    assert(e.subrange(p + n + 8, p + n + 16) =~= spec_magic());
    assert(e.subrange(p + n, p + n + 8) =~= spec_u64_be(archive.len() as u64));
    lemma_be_round_trip(archive.len() as u64);
    assert(e.subrange(p, p + n) =~= archive);
}

impl Metadata {
    /// Writes the metadata chunk to a byte vector, to later be read using
    /// `from_bytes`: the archive, its length big-endian, the marker.
    pub fn to_bytes(&self) -> (r: Vec<u8>)
        ensures
            r@ == spec_encode(self.zip_data@),
    {
        let n64: u64 = self.zip_data.len() as u64;
        let mut r = self.zip_data.clone();
        r.push((n64 >> 56) as u8);
        r.push((n64 >> 48) as u8);
        r.push((n64 >> 40) as u8);
        r.push((n64 >> 32) as u8);
        r.push((n64 >> 24) as u8);
        r.push((n64 >> 16) as u8);
        r.push((n64 >> 8) as u8);
        r.push(n64 as u8);
        r.push(0x63);
        r.push(0x72);
        r.push(0x33);
        r.push(0x73);
        r.push(0x63);
        r.push(0x33);
        r.push(0x6e);
        r.push(0x74);
        proof {
            assert(r@ =~= spec_encode(self.zip_data@));
        }
        r
    }

    /// Tries to read a standalone binary's archive from the given bytes.
    /// Succeeds exactly when the trailer decodes; every malformed blob is an
    /// error, never a panic.
    pub fn from_bytes(bytes: &[u8]) -> (r: Result<Self, LuneError>)
        ensures
            match r {
                Ok(m) => spec_decode(bytes@) == Some(m.zip_data@),
                Err(e) => spec_decode(bytes@) is None && e == LuneError::MalformedTrailer,
            },
    {
        let n = bytes.len();
        if n < 16 {
            return Err(LuneError::MalformedTrailer);
        }
        if !is_standalone(bytes) {
            return Err(LuneError::MalformedTrailer);
        }
        let l: u64 = (((bytes[n - 16] as u64) << 56) | ((bytes[n - 15] as u64) << 48) | ((bytes[n
            - 14] as u64) << 40) | ((bytes[n - 13] as u64) << 32) | ((bytes[n - 12] as u64) << 24)
            | ((bytes[n - 11] as u64) << 16) | ((bytes[n - 10] as u64) << 8) | (bytes[n - 9]
            as u64));
        proof {
            let s = bytes@.subrange(n - 16, n - 8);
            assert forall|i: int| 0 <= i < 8 implies s[i] == bytes@[n - 16 + i] by {}
            assert(l == spec_be_val(s));
        }
        if l > (n - 16) as u64 {
            return Err(LuneError::MalformedTrailer);
        }
        let start = n - 16 - (l as usize);
        let mut zip_data: Vec<u8> = Vec::new();
        let mut i = start;
        while i < n - 16
            invariant
                start <= i <= n - 16,
                n == bytes@.len(),
                n >= 16,
                start == n - 16 - l,
                l <= n - 16,
                zip_data@ =~= bytes@.subrange(start as int, i as int),
            decreases n - 16 - i,
        {
            zip_data.push(bytes[i]);
            i += 1;
        }
        proof {
            assert(zip_data@ =~= bytes@.subrange(start as int, n - 16));
        }
        Ok(Metadata { zip_data })
    }

    /// Compiles the script, builds a fresh storage-mode archive holding the
    /// bytecode under the reserved entry name plus the given extra files, and
    /// appends the encoded trailer to the base executable's bytes. Fails with
    /// CompileFailure, carrying the compiler's diagnostic, exactly when the
    /// script does not compile; otherwise succeeds exactly when the writer
    /// accepts the entries and finishes the archive.
    pub fn create_env_patched_bin(
        base_exe: Vec<u8>,
        script_contents: Vec<u8>,
        extra_files: Vec<(String, Vec<u8>)>,
    ) -> (r: Result<Vec<u8>, LuneError>)
        ensures
            ({
                let entries = spec_standalone_entries(
                    luau_bytecode(script_contents@).unwrap(),
                    extras_view(extra_files@),
                );
                match r {
                    Ok(out) => luau_bytecode(script_contents@) is Some && spec_entries_accepted(
                        entries,
                    ) && zw_finishes(entries) && out@ == base_exe@ + spec_encode(
                        zip_archive_bytes(entries),
                    ) && spec_decode(out@) == Some(zip_archive_bytes(entries)) && zip_parse(
                        zip_archive_bytes(entries),
                    ) == Some(spec_extracted_entries(entries)),
                    Err(LuneError::CompileFailure(m)) => luau_bytecode(script_contents@) is None
                        && m@ == luau_diagnostic(script_contents@),
                    Err(LuneError::InvalidArchive) => luau_bytecode(script_contents@) is Some && !(
                    spec_entries_accepted(entries) && zw_finishes(entries)),
                    Err(_) => false,
                }
            }),
    {
        let bytecode = match compile_luau(script_contents.as_slice()) {
            Ok(b) => b,
            Err(e) => {
                return Err(e);
            },
        };
        let ghost ents = spec_standalone_entries(bytecode@, extras_view(extra_files@));
        let mut writer = zw_new();
        let ghost empty_entries = zw_entries(&writer);
        match zw_add(&mut writer, "init.luau", bytecode.as_slice()) {
            Ok(u) => {
                proof {
                    assert(empty_entries.push(("init.luau"@, bytecode@)) =~= ents.take(1));
                    assert(zw_entries(&writer) =~= ents.take(1));
                    assert(ents.take(1).drop_last() =~= Seq::<(Seq<char>, Seq<u8>)>::empty());
                    assert(spec_entries_accepted(Seq::<(Seq<char>, Seq<u8>)>::empty()));
                    assert(spec_entries_accepted(ents.take(1)));
                }
            },
            Err(e) => {
                proof {
                    assert(empty_entries.push(("init.luau"@, bytecode@)) =~= ents.take(1));
                    if spec_entries_accepted(ents) {
                        lemma_accepted_prefix(ents, 1);
                    }
                }
                return Err(e);
            },
        }
        let m = extra_files.len();
        let mut i: usize = 0;
        while i < m
            invariant
                0 <= i <= m,
                m == extra_files@.len(),
                luau_bytecode(script_contents@) == Some(bytecode@),
                ents == spec_standalone_entries(bytecode@, extras_view(extra_files@)),
                ents.len() == m + 1,
                zw_entries(&writer) == ents.take(i + 1),
                spec_entries_accepted(ents.take(i + 1)),
            decreases m - i,
        {
            proof {
                assert(ents[i + 1] == extras_view(extra_files@)[i as int]);
                assert(extras_view(extra_files@)[i as int] == (
                    extra_files@[i as int].0@,
                    extra_files@[i as int].1@,
                ));
                assert(ents.take(i + 1).push(ents[i + 1]) =~= ents.take(i + 2));
            }
            match zw_add(&mut writer, extra_files[i].0.as_str(), extra_files[i].1.as_slice()) {
                Ok(u) => {
                    proof {
                        assert(zw_entries(&writer) =~= ents.take(i + 2));
                        assert(ents.take(i + 2).drop_last() =~= ents.take(i + 1));
                        assert(spec_entries_accepted(ents.take(i + 2)));
                    }
                },
                Err(e) => {
                    proof {
                        if spec_entries_accepted(ents) {
                            lemma_accepted_prefix(ents, i + 2);
                        }
                    }
                    return Err(e);
                },
            }
            i += 1;
        }
        proof {
            assert(ents.take(m as int + 1) =~= ents);
        }
        let zip_data = match zw_finish(writer) {
            Ok(d) => {
                proof {
                    assert(zw_finishes(ents));
                    assert(zip_parse(zip_archive_bytes(ents)) == Some(
                        spec_extracted_entries(ents),
                    ));
                }
                d
            },
            Err(e) => {
                proof {
                    assert(!zw_finishes(ents));
                }
                return Err(e);
            },
        };
        let zlen = zip_data.len();
        proof {
            assert(zip_data@.len() == zlen);
            lemma_trailer_round_trip_prefixed(base_exe@, zip_data@);
        }
        Ok(attach_trailer(base_exe, zip_data))
    }
}

/// Whether the archive writer, fed these entries in order, accepts every one
/// of them: each prefix's last entry is accepted after the entries before it.
pub open spec fn spec_entries_accepted(entries: Seq<(Seq<char>, Seq<u8>)>) -> bool
    decreases entries.len(),
{
    entries.len() == 0 || (spec_entries_accepted(entries.drop_last()) && zw_accepts(entries))
}

proof fn lemma_accepted_prefix(entries: Seq<(Seq<char>, Seq<u8>)>, k: int)
    requires
        spec_entries_accepted(entries),
        0 <= k <= entries.len(),
    ensures
        spec_entries_accepted(entries.take(k)),
    decreases entries.len(),
{
    if k == entries.len() {
        assert(entries.take(k) =~= entries);
    } else {
        lemma_accepted_prefix(entries.drop_last(), k);
        assert(entries.drop_last().take(k) =~= entries.take(k));
    }
}

/// The archive entries of a standalone binary: the compiled entry chunk
/// under the reserved name, then the embedded files.
pub open spec fn spec_standalone_entries(
    bytecode: Seq<u8>,
    extras: Seq<(Seq<char>, Seq<u8>)>,
) -> Seq<(Seq<char>, Seq<u8>)> {
    seq![("init.luau"@, bytecode)] + extras
}

/// The views of the extra files handed to the packager.
pub open spec fn extras_view(extra_files: Seq<(String, Vec<u8>)>) -> Seq<(Seq<char>, Seq<u8>)> {
    extra_files.map_values(|e: (String, Vec<u8>)| (e.0@, e.1@))
}

/// Appends the encoded trailer carrying the archive to the base executable's
/// bytes: the distributable binary is the base followed by the trailer.
pub fn attach_trailer(base_exe: Vec<u8>, zip_data: Vec<u8>) -> (r: Vec<u8>)
    ensures
        r@ == base_exe@ + spec_encode(zip_data@),
{
    let meta = Metadata { zip_data };
    let mut out = base_exe;
    let mut tail = meta.to_bytes();
    out.append(&mut tail);
    out
}

} // verus!
