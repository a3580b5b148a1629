use vstd::prelude::*;

use crate::errors::LuneError;
use crate::paths::{
    bytes_eq, lemma_trim_skip, normalize_path, spec_normalize, spec_starts_with,
    spec_trim_slashes, starts_with_bytes,
};
use crate::text::utf8_to_string;
use crate::zip_io::{zip_extract, zip_parse};
use vstd::utf8::{decode_utf8, valid_utf8};

verus! {

/// The view of a list of byte vectors.
pub open spec fn views_of(v: Seq<Vec<u8>>) -> Seq<Seq<u8>> {
    v.map_values(|w: Vec<u8>| w@)
}

/// Whether some entry name equals the key exactly.
pub open spec fn spec_has_entry(names: Seq<Seq<u8>>, key: Seq<u8>) -> bool {
    exists|i: int| 0 <= i < names.len() && names[i] == key
}

/// The content of the first entry whose name equals the key, if any.
pub open spec fn spec_read(entries: Seq<(Seq<u8>, Seq<u8>)>, key: Seq<u8>) -> Option<Seq<u8>>
    decreases entries.len(),
{
    if entries.len() == 0 {
        None
    } else if entries[0].0 == key {
        Some(entries[0].1)
    } else {
        spec_read(entries.skip(1), key)
    }
}

/// A key names a directory when it is the root, an entry matches it exactly
/// (explicit directory entries end in a slash themselves), or some entry
/// lives under it — a directory that exists only implicitly.
pub open spec fn spec_is_dir(names: Seq<Seq<u8>>, key: Seq<u8>) -> bool {
    key.len() == 0 || exists|i: int|
        0 <= i < names.len() && (names[i] == key || spec_starts_with(
            names[i],
            key.push(0x2fu8),
        ))
}

/// The number of bytes before the first slash (the whole sequence when it
/// has none).
pub open spec fn spec_seg_len(s: Seq<u8>) -> int
    decreases s.len(),
{
    if s.len() == 0 {
        0
    } else if s[0] == 0x2fu8 {
        0
    } else {
        1 + spec_seg_len(s.skip(1))
    }
}

/// The first slash-delimited, non-empty segment of a suffix: leading slashes
/// dropped, then everything up to the next slash.
pub open spec fn spec_first_segment(s: Seq<u8>) -> Seq<u8> {
    let t = spec_trim_slashes(s);
    t.take(spec_seg_len(t))
}

/// The direct child of a listing prefix that an entry name contributes: the
/// first segment of the name past the prefix, or nothing when the name lies
/// outside the prefix or nothing non-empty follows it.
pub open spec fn spec_child_of(name: Seq<u8>, prefix: Seq<u8>) -> Option<Seq<u8>> {
    if spec_starts_with(name, prefix) {
        let seg = spec_first_segment(name.skip(prefix.len() as int));
        if seg.len() == 0 {
            None
        } else {
            Some(seg)
        }
    } else {
        None
    }
}

/// The distinct direct children contributed by a list of entry names, in
/// order of first appearance.
pub open spec fn spec_children(names: Seq<Seq<u8>>, prefix: Seq<u8>) -> Seq<Seq<u8>>
    decreases names.len(),
{
    if names.len() == 0 {
        Seq::empty()
    } else {
        let rest = spec_children(names.drop_last(), prefix);
        match spec_child_of(names.last(), prefix) {
            Some(c) => if rest.contains(c) {
                rest
            } else {
                rest.push(c)
            },
            None => rest,
        }
    }
}

/// A child name joined onto the caller's original path.
pub open spec fn spec_join(path: Seq<u8>, child: Seq<u8>) -> Seq<u8> {
    if path.len() == 0 {
        child
    } else if path[path.len() - 1] == 0x2fu8 {
        path + child
    } else {
        path + seq![0x2fu8] + child
    }
}

/// What a directory listing returns for a request path with lookup key
/// `key`: each distinct direct child under the key, once, joined onto the
/// original path (bare child names at the root).
pub open spec fn spec_read_dir(names: Seq<Seq<u8>>, path: Seq<u8>, key: Seq<u8>) -> Seq<Seq<u8>> {
    if key.len() == 0 {
        spec_children(names, Seq::empty())
    } else {
        spec_children(names, key.push(0x2fu8)).map_values(|c: Seq<u8>| spec_join(path, c))
    }
}

/// A listing never repeats a child: the children of a prefix are pairwise
/// distinct.
pub proof fn lemma_children_distinct(names: Seq<Seq<u8>>, prefix: Seq<u8>)
    ensures
        forall|i: int, j: int|
            0 <= i < j < spec_children(names, prefix).len() ==> spec_children(names, prefix)[i]
                != spec_children(names, prefix)[j],
    decreases names.len(),
{
    if names.len() > 0 {
        lemma_children_distinct(names.drop_last(), prefix);
        let rest = spec_children(names.drop_last(), prefix);
        let whole = spec_children(names, prefix);
        match spec_child_of(names.last(), prefix) {
            Some(c) => {
                if !rest.contains(c) {
                    assert forall|i: int, j: int| 0 <= i < j < whole.len() implies whole[i]
                        != whole[j] by {
                        if j == rest.len() {
                            assert(whole[j] == c);
                            assert(whole[i] == rest[i]);
                            assert(rest[i] != c) by {
                                if rest[i] == c {
                                    assert(rest.contains(c));
                                }
                            }
                        } else {
                            assert(whole[i] == rest[i] && whole[j] == rest[j]);
                        }
                    }
                }
            },
            None => {},
        }
    }
}

/// A listing is complete and exact: a child is listed when and only when
/// some entry name contributes it.
pub proof fn lemma_children_complete(names: Seq<Seq<u8>>, prefix: Seq<u8>, c: Seq<u8>)
    ensures
        spec_children(names, prefix).contains(c) <==> exists|i: int|
            0 <= i < names.len() && spec_child_of(names[i], prefix) == Some(c),
    decreases names.len(),
{
    if names.len() == 0 {
        assert(!spec_children(names, prefix).contains(c));
    } else {
        let shorter = names.drop_last();
        lemma_children_complete(shorter, prefix, c);
        let rest = spec_children(shorter, prefix);
        let whole = spec_children(names, prefix);
        assert(forall|i: int| 0 <= i < shorter.len() ==> shorter[i] == names[i]);
        if whole.contains(c) {
            let k = choose|k: int| 0 <= k < whole.len() && whole[k] == c;
            if k < rest.len() {
                assert(rest[k] == c);
                assert(rest.contains(c));
                let i = choose|i: int|
                    0 <= i < shorter.len() && spec_child_of(shorter[i], prefix) == Some(c);
                assert(spec_child_of(names[i], prefix) == Some(c));
            } else {
                assert(spec_child_of(names.last(), prefix) == Some(c));
                assert(names.last() == names[names.len() - 1]);
            }
        }
        if exists|i: int| 0 <= i < names.len() && spec_child_of(names[i], prefix) == Some(c) {
            let i = choose|i: int|
                0 <= i < names.len() && spec_child_of(names[i], prefix) == Some(c);
            if i < names.len() - 1 {
                assert(spec_child_of(shorter[i], prefix) == Some(c));
                assert(rest.contains(c));
                let k = choose|k: int| 0 <= k < rest.len() && rest[k] == c;
                assert(whole[k] == c);
                assert(whole.contains(c));
            } else {
                assert(spec_child_of(names.last(), prefix) == Some(c));
                if rest.contains(c) {
                    let k = choose|k: int| 0 <= k < rest.len() && rest[k] == c;
                    assert(whole[k] == c);
                    assert(whole.contains(c));
                } else {
                    assert(whole == rest.push(c));
                    assert(whole[rest.len() as int] == c);
                    assert(whole.contains(c));
                }
            }
        }
    }
}

proof fn lemma_seg_len_at(s: Seq<u8>, e: int)
    requires
        0 <= e <= s.len(),
        forall|j: int| 0 <= j < e ==> s[j] != 0x2fu8,
        e == s.len() || s[e] == 0x2fu8,
    ensures
        spec_seg_len(s) == e,
    decreases e,
{
    if e == 0 {
    } else {
        assert(s[0] != 0x2fu8);
        assert forall|j: int| 0 <= j < e - 1 implies s.skip(1)[j] != 0x2fu8 by {
            assert(s.skip(1)[j] == s[j + 1]);
        }
        lemma_seg_len_at(s.skip(1), e - 1);
    }
}

proof fn lemma_children_step(names: Seq<Seq<u8>>, prefix: Seq<u8>, i: int)
    requires
        0 <= i < names.len(),
    ensures
        spec_children(names.take(i + 1), prefix) == ({
            let rest = spec_children(names.take(i), prefix);
            match spec_child_of(names[i], prefix) {
                Some(c) => if rest.contains(c) {
                    rest
                } else {
                    rest.push(c)
                },
                None => rest,
            }
        }),
{
    assert(names.take(i + 1).drop_last() =~= names.take(i));
    assert(names.take(i + 1).last() == names[i]);
}

/// Whether the listing built so far already holds this child name.
fn contains_bytes(v: &Vec<Vec<u8>>, x: &[u8]) -> (r: bool)
    ensures
        r == views_of(v@).contains(x@),
{
    let n = v.len();
    let mut i: usize = 0;
    while i < n
        invariant
            0 <= i <= n,
            n == v@.len(),
            forall|j: int| 0 <= j < i ==> views_of(v@)[j] != x@,
        decreases n - i,
    {
        proof {
            assert(views_of(v@)[i as int] == v@[i as int]@);
        }
        if bytes_eq(v[i].as_slice(), x) {
            proof {
                assert(views_of(v@).contains(x@));
            }
            return true;
        }
        i += 1;
    }
    proof {
        assert(!views_of(v@).contains(x@)) by {
            if views_of(v@).contains(x@) {
                let j = choose|j: int| 0 <= j < views_of(v@).len() && views_of(v@)[j] == x@;
            }
        }
    }
    false
}

/// Joins a child name onto the caller's original path.
fn join_path(path: &[u8], child: &[u8]) -> (r: Vec<u8>)
    ensures
        r@ == spec_join(path@, child@),
{
    let p_len = path.len();
    let mut r: Vec<u8> = Vec::new();
    let mut i: usize = 0;
    while i < p_len
        invariant
            0 <= i <= p_len,
            p_len == path@.len(),
            r@ =~= path@.take(i as int),
        decreases p_len - i,
    {
        r.push(path[i]);
        i += 1;
    }
    proof {
        assert(r@ =~= path@);
    }
    if p_len > 0 && path[p_len - 1] != 0x2f {
        r.push(0x2f);
    }
    let c_len = child.len();
    let ghost mid = r@;
    let mut k: usize = 0;
    while k < c_len
        invariant
            0 <= k <= c_len,
            c_len == child@.len(),
            r@ =~= mid + child@.take(k as int),
        decreases c_len - k,
    {
        r.push(child[k]);
        k += 1;
    }
    proof {
        assert(r@ =~= spec_join(path@, child@));
    }
    r
}

proof fn lemma_read_skip_step(entries: Seq<(Seq<u8>, Seq<u8>)>, key: Seq<u8>, i: int)
    requires
        0 <= i < entries.len(),
        entries[i].0 != key,
    ensures
        spec_read(entries.skip(i), key) == spec_read(entries.skip(i + 1), key),
{
    assert(entries.skip(i).len() > 0);
    assert(entries.skip(i)[0] == entries[i]);
    assert(entries.skip(i).skip(1) =~= entries.skip(i + 1));
}

/// Reading a key succeeds exactly when some entry name matches it: `read`
/// returns content for precisely the keys `is_file` answers true for.
pub proof fn lemma_read_iff_has_entry(entries: Seq<(Seq<u8>, Seq<u8>)>, key: Seq<u8>)
    ensures
        spec_read(entries, key) is Some <==> spec_has_entry(
            entries.map_values(|e: (Seq<u8>, Seq<u8>)| e.0),
            key,
        ),
    decreases entries.len(),
{
    let names = entries.map_values(|e: (Seq<u8>, Seq<u8>)| e.0);
    if entries.len() == 0 {
        assert(!spec_has_entry(names, key));
    } else if entries[0].0 == key {
        assert(names[0] == key);
        assert(spec_has_entry(names, key));
    } else {
        let rest = entries.skip(1);
        lemma_read_iff_has_entry(rest, key);
        let rest_names = rest.map_values(|e: (Seq<u8>, Seq<u8>)| e.0);
        assert(rest_names =~= names.skip(1));
        if spec_has_entry(names, key) {
            let i = choose|i: int| 0 <= i < names.len() && names[i] == key;
            assert(i != 0);
            assert(names.skip(1)[i - 1] == key);
            assert(spec_has_entry(rest_names, key));
        }
        if spec_has_entry(rest_names, key) {
            let i = choose|i: int| 0 <= i < rest_names.len() && rest_names[i] == key;
            assert(names[i + 1] == key);
            assert(spec_has_entry(names, key));
        }
    }
}

/// A filesystem implementation that reads from an archive held in memory.
/// The archive is decoded once, at construction; every operation afterwards
/// serves from the decoded entries, read-only.
#[derive(Debug, Clone)]
pub struct ZipFileSystem {
    entries: Vec<(Vec<u8>, Vec<u8>)>,
    cwd: Vec<u8>,
}

impl ZipFileSystem {
    /// The archive model: raw name bytes and content of each entry, in order.
    pub closed spec fn entries_view(&self) -> Seq<(Seq<u8>, Seq<u8>)> {
        self.entries@.map_values(|e: (Vec<u8>, Vec<u8>)| (e.0@, e.1@))
    }

    /// The entry names, in order.
    pub open spec fn names(&self) -> Seq<Seq<u8>> {
        self.entries_view().map_values(|e: (Seq<u8>, Seq<u8>)| e.0)
    }

    /// The working directory that absolute request paths resolve against.
    pub closed spec fn cwd_view(&self) -> Seq<u8> {
        self.cwd@
    }

    /// The archive lookup key of a request path.
    pub open spec fn key_of(&self, path: Seq<u8>) -> Seq<u8> {
        spec_normalize(path, self.cwd_view())
    }

    /// Decodes an archive from the given bytes: succeeds exactly when they
    /// are a fully readable archive, and the resulting filesystem then holds
    /// exactly the extracted entries, with an empty working directory.
    pub fn new(data: Vec<u8>) -> (r: Result<Self, LuneError>)
        ensures
            r is Ok <==> zip_parse(data@) is Some,
            match r {
                Ok(fs) => ({
                    &&& zip_parse(data@) == Some(fs.entries_view())
                    &&& fs.cwd_view() == Seq::<u8>::empty()
                }),
                Err(e) => e == LuneError::InvalidArchive,
            },
    {
        match zip_extract(data) {
            Ok(entries) => Ok(ZipFileSystem { entries, cwd: Vec::new() }),
            Err(e) => Err(e),
        }
    }

    /// Binds the working directory used to resolve absolute request paths;
    /// the entries are untouched.
    pub fn set_cwd(&mut self, cwd: Vec<u8>)
        ensures
            final(self).cwd_view() == cwd@,
            final(self).entries_view() == old(self).entries_view(),
    {
        self.cwd = cwd;
    }

    /// True exactly when an entry matches the normalized path.
    pub fn is_file(&self, path: &[u8]) -> (r: bool)
        ensures
            r == spec_has_entry(self.names(), self.key_of(path@)),
    {
        let key = normalize_path(path, self.cwd.as_slice());
        let n = self.entries.len();
        let mut i: usize = 0;
        while i < n
            invariant
                0 <= i <= n,
                n == self.entries@.len(),
                key@ == self.key_of(path@),
                forall|j: int| 0 <= j < i ==> self.names()[j] != key@,
            decreases n - i,
        {
            proof {
                assert(self.names()[i as int] == self.entries@[i as int].0@);
            }
            if bytes_eq(self.entries[i].0.as_slice(), key.as_slice()) {
                return true;
            }
            i += 1;
        }
        proof {
            assert(!spec_has_entry(self.names(), self.key_of(path@)));
        }
        false
    }

    /// The full content of the entry matching the normalized path, or
    /// NotFound; an absent entry is an error, never a panic.
    pub fn read(&self, path: &[u8]) -> (r: Result<Vec<u8>, LuneError>)
        ensures
            match r {
                Ok(data) => spec_read(self.entries_view(), self.key_of(path@)) == Some(data@),
                Err(e) => ({
                    &&& e == LuneError::NotFound
                    &&& spec_read(self.entries_view(), self.key_of(path@)) is None
                }),
            },
    {
        let key = normalize_path(path, self.cwd.as_slice());
        let ghost ev = self.entries_view();
        proof {
            assert(ev.skip(0) =~= ev);
        }
        let n = self.entries.len();
        let mut i: usize = 0;
        while i < n
            invariant
                0 <= i <= n,
                n == self.entries@.len(),
                key@ == self.key_of(path@),
                ev == self.entries_view(),
                spec_read(ev, key@) == spec_read(ev.skip(i as int), key@),
            decreases n - i,
        {
            proof {
                assert(ev[i as int] == (self.entries@[i as int].0@, self.entries@[i as int].1@));
            }
            if bytes_eq(self.entries[i].0.as_slice(), key.as_slice()) {
                proof {
                    assert(ev.skip(i as int)[0] == ev[i as int]);
                }
                return Ok(self.entries[i].1.clone());
            }
            proof {
                lemma_read_skip_step(ev, key@, i as int);
            }
            i += 1;
        }
        proof {
            assert(ev.skip(n as int) =~= Seq::<(Seq<u8>, Seq<u8>)>::empty());
        }
        Err(LuneError::NotFound)
    }

    /// `read`, then UTF-8 decoding: NotFound for a missing entry,
    /// InvalidEncoding for content that is not valid UTF-8.
    pub fn read_to_string(&self, path: &[u8]) -> (r: Result<String, LuneError>)
        ensures
            match r {
                Ok(s) => ({
                    let data = spec_read(self.entries_view(), self.key_of(path@));
                    &&& data is Some
                    &&& valid_utf8(data.unwrap())
                    &&& s@ == decode_utf8(data.unwrap())
                }),
                Err(e) => ({
                    let data = spec_read(self.entries_view(), self.key_of(path@));
                    ||| (e == LuneError::NotFound && data is None)
                    ||| (e == LuneError::InvalidEncoding && data is Some && !valid_utf8(
                        data.unwrap(),
                    ))
                }),
            },
    {
        let bytes = match self.read(path) {
            Ok(b) => b,
            Err(e) => {
                return Err(e);
            },
        };
        utf8_to_string(bytes)
    }

    /// True for the root, for a key some entry matches exactly, and for a key
    /// some entry name extends with a slash — a directory implied by a deeper
    /// file.
    pub fn is_dir(&self, path: &[u8]) -> (r: bool)
        ensures
            r == spec_is_dir(self.names(), self.key_of(path@)),
    {
        let key = normalize_path(path, self.cwd.as_slice());
        if key.len() == 0 {
            return true;
        }
        let mut prefix = key.clone();
        prefix.push(0x2f);
        proof {
            assert(prefix@ =~= self.key_of(path@).push(0x2fu8));
        }
        let n = self.entries.len();
        let mut i: usize = 0;
        while i < n
            invariant
                0 <= i <= n,
                n == self.entries@.len(),
                key@ == self.key_of(path@),
                key@.len() > 0,
                prefix@ == key@.push(0x2fu8),
                forall|j: int|
                    0 <= j < i ==> !(self.names()[j] == key@ || spec_starts_with(
                        self.names()[j],
                        key@.push(0x2fu8),
                    )),
            decreases n - i,
        {
            proof {
                assert(self.names()[i as int] == self.entries@[i as int].0@);
            }
            if bytes_eq(self.entries[i].0.as_slice(), key.as_slice()) {
                return true;
            }
            if starts_with_bytes(self.entries[i].0.as_slice(), prefix.as_slice()) {
                return true;
            }
            i += 1;
        }
        proof {
            assert(!spec_is_dir(self.names(), self.key_of(path@)));
        }
        false
    }

    /// Lists the direct children under the normalized path: entry names under
    /// the key's prefix collapse to their first segment past it, each child
    /// appears once, joined onto the caller's original path (bare names at
    /// the root). A key with nothing under it yields an empty listing.
    pub fn read_dir(&self, path: &[u8]) -> (r: Result<Vec<Vec<u8>>, LuneError>)
        ensures
            r is Ok,
            views_of(r.unwrap()@) == spec_read_dir(self.names(), path@, self.key_of(path@)),
    {
        let key = normalize_path(path, self.cwd.as_slice());
        let key_empty = key.len() == 0;
        let mut prefix = key;
        if !key_empty {
            prefix.push(0x2f);
        }
        let ghost sprefix = if self.key_of(path@).len() == 0 {
            Seq::<u8>::empty()
        } else {
            self.key_of(path@).push(0x2fu8)
        };
        proof {
            assert(prefix@ =~= sprefix);
        }
        let n = self.entries.len();
        let mut kids: Vec<Vec<u8>> = Vec::new();
        let mut i: usize = 0;
        proof {
            assert(self.names().take(0) =~= Seq::<Seq<u8>>::empty());
        }
        while i < n
            invariant
                0 <= i <= n,
                n == self.entries@.len(),
                prefix@ == sprefix,
                views_of(kids@) =~= spec_children(self.names().take(i as int), sprefix),
            decreases n - i,
        {
            let ghost nm = self.names()[i as int];
            proof {
                assert(nm == self.entries@[i as int].0@);
            }
            let plen = prefix.len();
            if starts_with_bytes(self.entries[i].0.as_slice(), prefix.as_slice()) {
                let name = &self.entries[i].0;
                let name_len = name.len();
                let mut t: usize = plen;
                while t < name_len && name[t] == 0x2f
                    invariant
                        plen <= t <= name_len,
                        name_len == nm.len(),
                        name@ == nm,
                        forall|j: int| plen <= j < t ==> nm[j] == 0x2fu8,
                    decreases name_len - t,
                {
                    t += 1;
                }
                let mut e2: usize = t;
                while e2 < name_len && name[e2] != 0x2f
                    invariant
                        t <= e2 <= name_len,
                        name_len == nm.len(),
                        name@ == nm,
                        forall|j: int| t <= j < e2 ==> nm[j] != 0x2fu8,
                    decreases name_len - e2,
                {
                    e2 += 1;
                }
                let ghost seg = spec_first_segment(nm.skip(plen as int));
                proof {
                    let suffix = nm.skip(plen as int);
                    assert forall|j: int| 0 <= j < t - plen implies suffix[j] == 0x2fu8 by {
                        assert(suffix[j] == nm[plen + j]);
                    }
                    assert(t - plen == suffix.len() || suffix[t as int - plen] != 0x2fu8);
                    lemma_trim_skip(suffix, t as int - plen as int);
                    let trimmed = suffix.skip(t as int - plen as int);
                    assert forall|j: int| 0 <= j < e2 - t implies trimmed[j] != 0x2fu8 by {
                        assert(trimmed[j] == nm[t + j]);
                    }
                    assert(e2 - t == trimmed.len() || trimmed[e2 as int - t as int] == 0x2fu8);
                    lemma_seg_len_at(trimmed, e2 as int - t as int);
                    assert(seg =~= nm.subrange(t as int, e2 as int));
                }
                if e2 > t {
                    let mut child: Vec<u8> = Vec::new();
                    let mut k: usize = t;
                    while k < e2
                        invariant
                            t <= k <= e2 <= name_len,
                            name_len == nm.len(),
                            name@ == nm,
                            child@ =~= nm.subrange(t as int, k as int),
                        decreases e2 - k,
                    {
                        child.push(name[k]);
                        k += 1;
                    }
                    proof {
                        assert(child@ =~= nm.subrange(t as int, e2 as int));
                        assert(spec_child_of(nm, sprefix) == Some(child@));
                    }
                    let ghost old_kids = views_of(kids@);
                    if !contains_bytes(&kids, child.as_slice()) {
                        let ghost cv = child@;
                        kids.push(child);
                        proof {
                            assert(views_of(kids@) =~= old_kids.push(cv));
                        }
                    }
                } else {
                    proof {
                        assert(seg.len() == 0);
                        assert(spec_child_of(nm, sprefix) is None);
                    }
                }
            } else {
                proof {
                    assert(spec_child_of(nm, sprefix) is None);
                }
            }
            proof {
                lemma_children_step(self.names(), sprefix, i as int);
            }
            i += 1;
        }
        proof {
            assert(self.names().take(n as int) =~= self.names());
        }
        if key_empty {
            return Ok(kids);
        }
        let m = kids.len();
        let ghost kv = views_of(kids@);
        let mut out: Vec<Vec<u8>> = Vec::new();
        let mut k: usize = 0;
        while k < m
            invariant
                0 <= k <= m,
                m == kids@.len(),
                kv == views_of(kids@),
                views_of(out@).len() == k,
                forall|j: int| 0 <= j < k ==> views_of(out@)[j] == spec_join(path@, kv[j]),
            decreases m - k,
        {
            let joined = join_path(path, kids[k].as_slice());
            let ghost jv = joined@;
            let ghost old_out = out@;
            proof {
                assert(views_of(kids@)[k as int] == kids@[k as int]@);
                assert(jv == spec_join(path@, kv[k as int]));
            }
            out.push(joined);
            proof {
                assert forall|j: int| 0 <= j < k + 1 implies views_of(out@)[j] == spec_join(
                    path@,
                    kv[j],
                ) by {
                    assert(views_of(out@)[j] == out@[j]@);
                    if j < k {
                        assert(out@[j] == old_out[j]);
                        assert(views_of(old_out)[j] == old_out[j]@);
                    } else {
                        assert(out@[j]@ == jv);
                    }
                }
            }
            k += 1;
        }
        proof {
            assert(views_of(out@) =~= kv.map_values(|c: Seq<u8>| spec_join(path@, c)));
        }
        Ok(out)
    }
}

impl crate::fs::FileSystem for ZipFileSystem {
    fn is_file(&self, path: &[u8]) -> bool {
        ZipFileSystem::is_file(self, path)
    }

    fn is_dir(&self, path: &[u8]) -> bool {
        ZipFileSystem::is_dir(self, path)
    }

    fn read(&self, path: &[u8]) -> Result<Vec<u8>, LuneError> {
        ZipFileSystem::read(self, path)
    }

    fn read_to_string(&self, path: &[u8]) -> Result<String, LuneError> {
        ZipFileSystem::read_to_string(self, path)
    }

    fn read_dir(&self, path: &[u8]) -> Result<Vec<Vec<u8>>, LuneError> {
        ZipFileSystem::read_dir(self, path)
    }
}

} // verus!
