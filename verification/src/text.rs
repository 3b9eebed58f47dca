//! Byte-level text utilities for FITS header cards.
//!
//! FITS headers are ASCII, so every routine here works on bytes.  Each
//! executable function is proved equal to a spec-level definition over
//! `Seq<u8>`, which the header parser's contracts build on.

use vstd::prelude::*;

verus! {

/// The ASCII whitespace bytes that `str::trim` removes from ASCII text.
pub open spec fn is_ws(b: u8) -> bool {
    b == 32 || b == 9 || b == 10 || b == 11 || b == 12 || b == 13
}

/// `s` with leading whitespace removed.
pub open spec fn spec_trim_start(s: Seq<u8>) -> Seq<u8>
    decreases s.len(),
{
    if s.len() > 0 && is_ws(s[0]) {
        spec_trim_start(s.drop_first())
    } else {
        s
    }
}

/// `s` with trailing whitespace removed.
pub open spec fn spec_trim_end(s: Seq<u8>) -> Seq<u8>
    decreases s.len(),
{
    if s.len() > 0 && is_ws(s.last()) {
        spec_trim_end(s.drop_last())
    } else {
        s
    }
}

/// `s` with whitespace removed from both ends.
pub open spec fn spec_trim(s: Seq<u8>) -> Seq<u8> {
    spec_trim_end(spec_trim_start(s))
}

proof fn lemma_trim_start_at(s: Seq<u8>, i: int)
    requires
        0 <= i <= s.len(),
        forall|k: int| 0 <= k < i ==> is_ws(s[k]),
        i < s.len() ==> !is_ws(s[i]),
    ensures
        spec_trim_start(s) =~= s.subrange(i, s.len() as int),
    decreases i,
{
    if i == 0 {
        assert(s.subrange(0, s.len() as int) =~= s);
    } else {
        assert(is_ws(s[0]));
        let t = s.drop_first();
        assert(t =~= s.subrange(1, s.len() as int));
        lemma_trim_start_at(t, i - 1);
        assert(t.subrange(i - 1, t.len() as int) =~= s.subrange(i, s.len() as int));
    }
}

proof fn lemma_trim_end_at(s: Seq<u8>, j: int)
    requires
        0 <= j <= s.len(),
        forall|k: int| j <= k < s.len() ==> is_ws(s[k]),
        j > 0 ==> !is_ws(s[j - 1]),
    ensures
        spec_trim_end(s) =~= s.subrange(0, j),
    decreases s.len(),
{
    if j == s.len() {
        if s.len() == 0 || !is_ws(s.last()) {
            assert(s.subrange(0, s.len() as int) =~= s);
        } else {
            let t = s.drop_last();
            lemma_trim_end_at(t, j - 1);
        }
    } else {
        assert(is_ws(s.last()));
        let t = s.drop_last();
        assert(t =~= s.subrange(0, s.len() - 1));
        lemma_trim_end_at(t, j);
        assert(t.subrange(0, j) =~= s.subrange(0, j));
    }
}

/// Copy of `s[a..b]`.
pub fn subvec(s: &[u8], a: usize, b: usize) -> (r: Vec<u8>)
    requires
        a <= b <= s@.len(),
    ensures
        r@ =~= s@.subrange(a as int, b as int),
{
    let mut r: Vec<u8> = Vec::new();
    let mut i: usize = a;
    while i < b
        invariant
            a <= i <= b <= s@.len(),
            r@ =~= s@.subrange(a as int, i as int),
        decreases b - i,
    {
        r.push(s[i]);
        i += 1;
    }
    r
}

/// Whether one byte is ASCII whitespace.
fn is_ws_byte(b: u8) -> (r: bool)
    ensures
        r == is_ws(b),
{
    b == 32 || b == 9 || b == 10 || b == 11 || b == 12 || b == 13
}

/// Index of the first non-whitespace byte (the length if there is none).
fn ws_prefix_len(s: &[u8]) -> (i: usize)
    ensures
        i <= s@.len(),
        forall|k: int| 0 <= k < i ==> is_ws(s@[k]),
        i < s@.len() ==> !is_ws(s@[i as int]),
{
    let n: usize = s.len();
    let mut i: usize = 0;
    while i < n && is_ws_byte(s[i])
        invariant
            i <= n == s@.len(),
            forall|k: int| 0 <= k < i ==> is_ws(s@[k]),
        decreases n - i,
    {
        i += 1;
    }
    i
}

/// Index just past the last non-whitespace byte (0 if all whitespace).
fn ws_suffix_start(s: &[u8]) -> (j: usize)
    ensures
        j <= s@.len(),
        forall|k: int| j <= k < s@.len() ==> is_ws(s@[k]),
        j > 0 ==> !is_ws(s@[j - 1]),
{
    let n: usize = s.len();
    let mut j: usize = n;
    while j > 0 && is_ws_byte(s[j - 1])
        invariant
            j <= n == s@.len(),
            forall|k: int| j <= k < n ==> is_ws(s@[k]),
        decreases j,
    {
        j -= 1;
    }
    j
}

/// Trim whitespace from both ends.
pub fn trim_bytes(s: &[u8]) -> (r: Vec<u8>)
    ensures
        r@ =~= spec_trim(s@),
{
    let i: usize = ws_prefix_len(s);
    proof {
        lemma_trim_start_at(s@, i as int);
    }
    let t = subvec(s, i, s.len());
    let j: usize = ws_suffix_start(t.as_slice());
    proof {
        lemma_trim_end_at(t@, j as int);
    }
    subvec(t.as_slice(), 0, j)
}

/// Trim whitespace from the end only.
pub fn trim_end_bytes(s: &[u8]) -> (r: Vec<u8>)
    ensures
        r@ =~= spec_trim_end(s@),
{
    let j: usize = ws_suffix_start(s);
    proof {
        lemma_trim_end_at(s@, j as int);
    }
    subvec(s, 0, j)
}

/// Byte-for-byte equality.
pub fn bytes_eq(a: &[u8], b: &[u8]) -> (r: bool)
    ensures
        r == (a@ =~= b@),
{
    if a.len() != b.len() {
        return false;
    }
    let n: usize = a.len();
    let mut i: usize = 0;
    while i < n
        invariant
            i <= n,
            n == a@.len() == b@.len(),
            forall|k: int| 0 <= k < i ==> a@[k] == b@[k],
        decreases n - i,
    {
        if a[i] != b[i] {
            return false;
        }
        i += 1;
    }
    true
}

/// `p` is a prefix of `s`.
pub open spec fn spec_starts_with(s: Seq<u8>, p: Seq<u8>) -> bool {
    p.len() <= s.len() && s.subrange(0, p.len() as int) =~= p
}

pub fn starts_with_bytes(s: &[u8], p: &[u8]) -> (r: bool)
    ensures
        r == spec_starts_with(s@, p@),
{
    if p.len() > s.len() {
        return false;
    }
    let n: usize = p.len();
    let mut i: usize = 0;
    while i < n
        invariant
            i <= n == p@.len(),
            n <= s@.len(),
            forall|k: int| 0 <= k < i ==> s@[k] == p@[k],
        decreases n - i,
    {
        if s[i] != p[i] {
            assert(!spec_starts_with(s@, p@)) by {
                assert(s@.subrange(0, p@.len() as int)[i as int] == s@[i as int]);
            }
            return false;
        }
        i += 1;
    }
    assert(s@.subrange(0, p@.len() as int) =~= p@);
    true
}

/// ASCII upper-casing of one byte.
pub open spec fn upper_byte(b: u8) -> u8 {
    if 97 <= b <= 122 {
        (b - 32) as u8
    } else {
        b
    }
}

/// ASCII upper-casing of a byte string.
pub open spec fn spec_upper(s: Seq<u8>) -> Seq<u8> {
    Seq::new(s.len(), |i: int| upper_byte(s[i]))
}

pub fn upper_bytes(s: &[u8]) -> (r: Vec<u8>)
    ensures
        r@ =~= spec_upper(s@),
{
    let n: usize = s.len();
    let mut r: Vec<u8> = Vec::new();
    let mut i: usize = 0;
    while i < n
        invariant
            i <= n == s@.len(),
            r@.len() == i,
            forall|k: int| 0 <= k < i ==> r@[k] == upper_byte(s@[k]),
        decreases n - i,
    {
        let b: u8 = s[i];
        if 97 <= b && b <= 122 {
            r.push(b - 32);
        } else {
            r.push(b);
        }
        i += 1;
    }
    r
}

/// `p` occurs in `s` at position `i`.
pub open spec fn spec_match_at(s: Seq<u8>, p: Seq<u8>, i: int) -> bool {
    0 <= i && i + p.len() <= s.len() && s.subrange(i, i + p.len() as int) =~= p
}

/// `p` occurs somewhere in `s`.
pub open spec fn spec_contains(s: Seq<u8>, p: Seq<u8>) -> bool {
    exists|i: int| spec_match_at(s, p, i)
}

fn match_at(s: &[u8], p: &[u8], i: usize) -> (r: bool)
    requires
        i + p@.len() <= s@.len(),
    ensures
        r == spec_match_at(s@, p@, i as int),
{
    let sn: usize = s.len();
    let n: usize = p.len();
    let mut k: usize = 0;
    while k < n
        invariant
            k <= n == p@.len(),
            sn == s@.len(),
            i + n <= sn,
            forall|j: int| 0 <= j < k ==> s@[i + j] == p@[j],
        decreases n - k,
    {
        if s[i + k] != p[k] {
            assert(!spec_match_at(s@, p@, i as int)) by {
                assert(s@.subrange(i as int, i + p@.len() as int)[k as int] == s@[i + k]);
            }
            return false;
        }
        k += 1;
    }
    assert(s@.subrange(i as int, i + p@.len() as int) =~= p@);
    true
}

/// Whether `p` occurs in `s`.
pub fn contains_bytes(s: &[u8], p: &[u8]) -> (r: bool)
    ensures
        r == spec_contains(s@, p@),
{
    if p.len() > s.len() {
        assert(!spec_contains(s@, p@));
        return false;
    }
    if p.len() == 0 {
        assert(spec_match_at(s@, p@, 0)) by {
            assert(s@.subrange(0, 0) =~= p@);
        }
        return true;
    }
    let sn: usize = s.len();
    let last: usize = sn - p.len();
    let mut i: usize = 0;
    while i <= last
        invariant
            i <= last + 1,
            last < sn == s@.len(),
            last == s@.len() - p@.len(),
            0 < p@.len() <= s@.len(),
            forall|j: int| 0 <= j < i ==> !spec_match_at(s@, p@, j),
        decreases last + 1 - i,
    {
        if match_at(s, p, i) {
            return true;
        }
        i += 1;
    }
    assert(forall|j: int| spec_match_at(s@, p@, j) ==> 0 <= j <= last);
    false
}

/// Position of the first occurrence of `p` in `s`, if any.
pub fn find_bytes(s: &[u8], p: &[u8]) -> (r: Option<usize>)
    ensures
        match r {
            Some(i) => spec_match_at(s@, p@, i as int) && forall|j: int|
                0 <= j < i ==> !spec_match_at(s@, p@, j),
            None => !spec_contains(s@, p@),
        },
{
    if p.len() > s.len() {
        assert(!spec_contains(s@, p@));
        return None;
    }
    if p.len() == 0 {
        assert(spec_match_at(s@, p@, 0)) by {
            assert(s@.subrange(0, 0) =~= p@);
        }
        return Some(0);
    }
    let sn: usize = s.len();
    let last: usize = sn - p.len();
    let mut i: usize = 0;
    while i <= last
        invariant
            i <= last + 1,
            last < sn == s@.len(),
            last == s@.len() - p@.len(),
            0 < p@.len() <= s@.len(),
            forall|j: int| 0 <= j < i ==> !spec_match_at(s@, p@, j),
        decreases last + 1 - i,
    {
        if match_at(s, p, i) {
            return Some(i);
        }
        i += 1;
    }
    assert(forall|j: int| spec_match_at(s@, p@, j) ==> 0 <= j <= last);
    None
}

} // verus!
