use vstd::prelude::*;

verus! {

/// Every backslash replaced by a forward slash; nothing else changes.
pub open spec fn spec_replace_backslashes(s: Seq<u8>) -> Seq<u8> {
    s.map_values(|b: u8| if b == 0x5cu8 { 0x2fu8 } else { b })
}

/// The sequence with every leading forward slash removed.
pub open spec fn spec_trim_slashes(s: Seq<u8>) -> Seq<u8>
    decreases s.len(),
{
    if s.len() > 0 && s[0] == 0x2fu8 {
        spec_trim_slashes(s.skip(1))
    } else {
        s
    }
}

/// An absolute path with the working directory stripped off when it lies
/// under it (or equals it); any other path is left unchanged.
pub open spec fn spec_strip_cwd(p: Seq<u8>, cwd: Seq<u8>) -> Seq<u8> {
    if p.len() > 0 && p[0] == 0x2fu8 && cwd.len() > 0 {
        if p == cwd {
            Seq::empty()
        } else if p.len() > cwd.len() && p.take(cwd.len() as int) == cwd && p[cwd.len() as int]
            == 0x2fu8 {
            p.skip(cwd.len() as int + 1)
        } else {
            p
        }
    } else {
        p
    }
}

/// The archive lookup key for a request path: strip the working directory
/// prefix from an absolute path when possible, turn backslashes into forward
/// slashes, and drop leading slashes.
pub open spec fn spec_normalize(p: Seq<u8>, cwd: Seq<u8>) -> Seq<u8> {
    spec_trim_slashes(spec_replace_backslashes(spec_strip_cwd(p, cwd)))
}

pub(crate) proof fn lemma_trim_skip(s: Seq<u8>, t: int)
    requires
        0 <= t <= s.len(),
        forall|j: int| 0 <= j < t ==> s[j] == 0x2fu8,
        t == s.len() || s[t] != 0x2fu8,
    ensures
        spec_trim_slashes(s) == s.skip(t),
    decreases t,
{
    if t == 0 {
        assert(s.skip(0) =~= s);
    } else {
        lemma_trim_skip(s.skip(1), t - 1);
        assert(s.skip(1).skip(t - 1) =~= s.skip(t));
    }
}

proof fn lemma_trim_no_leading(s: Seq<u8>)
    ensures
        spec_trim_slashes(s).len() > 0 ==> spec_trim_slashes(s)[0] != 0x2fu8,
    decreases s.len(),
{
    if s.len() > 0 && s[0] == 0x2fu8 {
        lemma_trim_no_leading(s.skip(1));
    }
}

proof fn lemma_trim_no_backslash(s: Seq<u8>)
    requires
        forall|i: int| 0 <= i < s.len() ==> #[trigger] s[i] != 0x5cu8,
    ensures
        forall|i: int|
            0 <= i < spec_trim_slashes(s).len() ==> #[trigger] spec_trim_slashes(s)[i] != 0x5cu8,
    decreases s.len(),
{
    if s.len() > 0 && s[0] == 0x2fu8 {
        assert(forall|i: int| 0 <= i < s.skip(1).len() ==> #[trigger] s.skip(1)[i] != 0x5cu8);
        lemma_trim_no_backslash(s.skip(1));
        assert(spec_trim_slashes(s) == spec_trim_slashes(s.skip(1)));
        assert forall|i: int| 0 <= i < spec_trim_slashes(s).len() implies #[trigger] spec_trim_slashes(
            s,
        )[i] != 0x5cu8 by {
            assert(spec_trim_slashes(s)[i] == spec_trim_slashes(s.skip(1))[i]);
        }
    }
}

/// Normalization is idempotent: a key already normalized is its own key.
pub proof fn lemma_normalize_idempotent(p: Seq<u8>, cwd: Seq<u8>)
    ensures
        spec_normalize(spec_normalize(p, cwd), cwd) == spec_normalize(p, cwd),
{
    let stripped = spec_strip_cwd(p, cwd);
    let replaced = spec_replace_backslashes(stripped);
    let r = spec_trim_slashes(replaced);
    lemma_trim_no_leading(replaced);
    // r does not start with a slash, so stripping the cwd leaves it alone
    assert(spec_strip_cwd(r, cwd) == r);
    // replacement removed every backslash, and trimming keeps that
    assert(forall|i: int| 0 <= i < replaced.len() ==> #[trigger] replaced[i] != 0x5cu8);
    lemma_trim_no_backslash(replaced);
    assert(spec_replace_backslashes(r) =~= r);
    // r has no leading slash left to trim
    lemma_trim_skip(r, 0);
}

/// True when `p` is a prefix of `s`.
pub open spec fn spec_starts_with(s: Seq<u8>, p: Seq<u8>) -> bool {
    s.len() >= p.len() && s.take(p.len() as int) == p
}

/// Byte-for-byte equality of two byte slices.
pub fn bytes_eq(a: &[u8], b: &[u8]) -> (r: bool)
    ensures
        r == (a@ == b@),
{
    if a.len() != b.len() {
        proof {
            assert(a@ != b@) by {
                if a@ == b@ {
                    assert(a@.len() == b@.len());
                }
            }
        }
        return false;
    }
    let n = a.len();
    let mut i: usize = 0;
    while i < n
        invariant
            0 <= i <= n,
            n == a@.len() == b@.len(),
            forall|j: int| 0 <= j < i ==> a@[j] == b@[j],
        decreases n - i,
    {
        if a[i] != b[i] {
            proof {
                assert(a@ != b@) by {
                    if a@ == b@ {
                        assert(a@[i as int] == b@[i as int]);
                    }
                }
            }
            return false;
        }
        i += 1;
    }
    proof {
        assert(a@ =~= b@);
    }
    true
}

/// True when the slice `p` is a prefix of the slice `s`.
pub fn starts_with_bytes(s: &[u8], p: &[u8]) -> (r: bool)
    ensures
        r == spec_starts_with(s@, p@),
{
    if s.len() < p.len() {
        return false;
    }
    let n = p.len();
    let mut i: usize = 0;
    while i < n
        invariant
            0 <= i <= n,
            n == p@.len() <= s@.len(),
            forall|j: int| 0 <= j < i ==> s@[j] == p@[j],
        decreases n - i,
    {
        if s[i] != p[i] {
            proof {
                assert(s@.take(n as int) != p@) by {
                    if s@.take(n as int) == p@ {
                        assert(s@.take(n as int)[i as int] == p@[i as int]);
                    }
                }
            }
            return false;
        }
        i += 1;
    }
    proof {
        assert(s@.take(n as int) =~= p@);
    }
    true
}

/// Builds the archive lookup key for a request path, given the working
/// directory bound at construction time.
pub fn normalize_path(path: &[u8], cwd: &[u8]) -> (r: Vec<u8>)
    ensures
        r@ == spec_normalize(path@, cwd@),
{
    let p_len = path.len();
    let c_len = cwd.len();
    // strip the working directory prefix from an absolute path
    let start: usize = if p_len > 0 && path[0] == 0x2f && c_len > 0 {
        if bytes_eq(path, cwd) {
            p_len
        } else if p_len > c_len && starts_with_bytes(path, cwd) && path[c_len] == 0x2f {
            c_len + 1
        } else {
            0
        }
    } else {
        0
    };
    proof {
        assert(spec_strip_cwd(path@, cwd@) =~= path@.skip(start as int));
    }
    // replace backslashes with forward slashes
    let mut mapped: Vec<u8> = Vec::new();
    let mut i = start;
    while i < p_len
        invariant
            start <= i <= p_len,
            p_len == path@.len(),
            mapped@.len() == i - start,
            forall|j: int|
                0 <= j < mapped@.len() ==> mapped@[j] == (if path@[start + j] == 0x5cu8 {
                    0x2fu8
                } else {
                    path@[start + j]
                }),
        decreases p_len - i,
    {
        let b = path[i];
        if b == 0x5c {
            mapped.push(0x2f);
        } else {
            mapped.push(b);
        }
        i += 1;
    }
    proof {
        assert(mapped@ =~= spec_replace_backslashes(path@.skip(start as int)));
    }
    // drop leading slashes
    let m_len = mapped.len();
    let mut t: usize = 0;
    while t < m_len && mapped[t] == 0x2f
        invariant
            0 <= t <= m_len,
            m_len == mapped@.len(),
            forall|j: int| 0 <= j < t ==> mapped@[j] == 0x2fu8,
        decreases m_len - t,
    {
        t += 1;
    }
    proof {
        lemma_trim_skip(mapped@, t as int);
    }
    let mut r: Vec<u8> = Vec::new();
    let mut k = t;
    while k < m_len
        invariant
            t <= k <= m_len,
            m_len == mapped@.len(),
            r@ =~= mapped@.subrange(t as int, k as int),
        decreases m_len - k,
    {
        r.push(mapped[k]);
        k += 1;
    }
    proof {
        assert(r@ =~= mapped@.skip(t as int));
    }
    r
}

} // verus!
