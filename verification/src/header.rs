//! FITS header cards.
//!
//! A FITS header is a sequence of 80-byte ASCII records ("cards") packed
//! into 2880-byte blocks and closed by an `END` card.  This module parses
//! one card into its key and value, strips value comments, and looks up
//! integer-valued keywords in raw header bytes.

use vstd::prelude::*;
use crate::numparse::{parse_i64_bytes, spec_parse_i64};
use crate::text::{
    bytes_eq, spec_starts_with, spec_trim, spec_trim_end, spec_trim_start,
    starts_with_bytes, subvec, trim_bytes, trim_end_bytes,
};

verus! {

/// Bytes of one header record.
pub const CARD_LEN: usize = 80;

/// Bytes of one header/data block.
pub const BLOCK_LEN: usize = 2880;

/// Every byte is ASCII, so the card is also valid UTF-8 and byte positions
/// are character positions.
pub open spec fn all_ascii(s: Seq<u8>) -> bool {
    forall|i: int| 0 <= i < s.len() ==> #[trigger] s[i] < 128
}

/// Whether all bytes of a slice are ASCII.
pub fn all_ascii_exec(s: &[u8]) -> (r: bool)
    ensures
        r == all_ascii(s@),
{
    let n: usize = s.len();
    let mut i: usize = 0;
    while i < n
        invariant
            i <= n == s@.len(),
            forall|k: int| 0 <= k < i ==> #[trigger] s@[k] < 128,
        decreases n - i,
    {
        if s[i] >= 128 {
            return false;
        }
        i += 1;
    }
    true
}

/// Position of the closing quote of a FITS string that opened before `i`,
/// scanning from `i` and skipping doubled (escaped) quotes.
pub open spec fn spec_quote_end(t: Seq<u8>, i: int) -> Option<int>
    decreases t.len() - i,
{
    if i < 0 || i >= t.len() {
        None
    } else if t[i] == 39 {
        if i + 1 < t.len() && t[i + 1] == 39 {
            spec_quote_end(t, i + 2)
        } else {
            Some(i)
        }
    } else {
        spec_quote_end(t, i + 1)
    }
}

/// The ` / comment` part of a FITS value begins at the first ` / ` outside
/// a quoted string; this is the value with that part removed, after
/// trimming, exactly as a header reader hands it on.
pub open spec fn spec_strip_comment(s: Seq<u8>) -> Seq<u8> {
    let t = spec_trim(s);
    if t.len() > 0 && t[0] == 39 {
        match spec_quote_end(t, 1) {
            Some(i) => t.take(i + 1),
            None => t,
        }
    } else {
        match spec_find_sep(t, 0) {
            Some(p) => spec_trim_end(t.take(p)),
            None => t,
        }
    }
}

/// First position `>= i` where ` / ` occurs.
pub open spec fn spec_find_sep(t: Seq<u8>, i: int) -> Option<int>
    decreases t.len() - i,
{
    if i < 0 || i + 3 > t.len() {
        None
    } else if t[i] == 32 && t[i + 1] == 47 && t[i + 2] == 32 {
        Some(i)
    } else {
        spec_find_sep(t, i + 1)
    }
}

/// Remove the ` / comment` part from a FITS value field, respecting quoted
/// strings with doubled-quote escapes.
pub fn strip_fits_comment(s: &[u8]) -> (r: Vec<u8>)
    ensures
        r@ =~= spec_strip_comment(s@),
{
    let t = trim_bytes(s);
    let n: usize = t.len();
    if n > 0 && t[0] == 39 {
        let mut i: usize = 1;
        while i < n
            invariant
                1 <= i,
                n == t@.len(),
                t@ =~= spec_trim(s@),
                n > 0 && t@[0] == 39,
                spec_quote_end(t@, 1) == spec_quote_end(t@, i as int),
            decreases n + 2 - i,
        {
            if t[i] == 39 {
                if i + 1 < n && t[i + 1] == 39 {
                    i += 2;
                } else {
                    assert(spec_quote_end(t@, i as int) == Some(i as int));
                    return subvec(t.as_slice(), 0, i + 1);
                }
            } else {
                i += 1;
            }
        }
        assert(spec_quote_end(t@, i as int) is None);
        t
    } else {
        if n < 3 {
            assert(spec_find_sep(t@, 0) is None);
            return t;
        }
        let last: usize = n - 3;
        let mut i: usize = 0;
        while i <= last
            invariant
                0 <= i <= last + 1,
                last == n - 3,
                3 <= n == t@.len(),
                t@ =~= spec_trim(s@),
                !(t@.len() > 0 && t@[0] == 39),
                spec_find_sep(t@, 0) == spec_find_sep(t@, i as int),
            decreases last + 1 - i,
        {
            if t[i] == 32 && t[i + 1] == 47 && t[i + 2] == 32 {
                assert(spec_find_sep(t@, i as int) == Some(i as int));
                let head = subvec(t.as_slice(), 0, i);
                return trim_end_bytes(head.as_slice());
            }
            i += 1;
        }
        assert(spec_find_sep(t@, i as int) is None);
        t
    }
}

/// The key padded to 8 bytes with spaces, as it appears in a record.
pub open spec fn spec_pad_key(key: Seq<u8>) -> Seq<u8> {
    if key.len() >= 8 {
        key
    } else {
        key + Seq::new((8 - key.len()) as nat, |i: int| 32u8)
    }
}

pub fn pad_key_exec(key: &[u8]) -> (r: Vec<u8>)
    ensures
        r@ =~= spec_pad_key(key@),
{
    let mut r = subvec(key, 0, key.len());
    proof {
        assert(r@ =~= key@);
    }
    while r.len() < 8
        invariant
            key@.len() < 8 ==> (key@.len() <= r@.len() <= 8 && r@ =~= key@ + Seq::new(
                (r@.len() - key@.len()) as nat,
                |i: int| 32u8,
            )),
            key@.len() >= 8 ==> r@ =~= key@,
        decreases 8 - r.len(),
    {
        r.push(32);
    }
    r
}

/// The integer a record's value field denotes: the bytes after `= ` with
/// any comment stripped, trimmed, read as a decimal integer.
pub open spec fn spec_card_int(rec: Seq<u8>) -> Option<i64> {
    if rec.len() > 10 && rec[8] == 61 && rec[9] == 32 {
        spec_parse_i64(
            spec_trim(spec_strip_comment(spec_trim(rec.skip(10)))),
        )
    } else {
        None
    }
}

/// Whether the record at chunk `c` settles the lookup, and what it gives.
/// Mirrors a scan of consecutive 80-byte records: the first record whose
/// first 8 bytes are the padded key and which has a `= ` value field gives
/// the answer; a matching record that is not ASCII makes the whole lookup
/// fail.
pub open spec fn spec_find_int_from(h: Seq<u8>, kp: Seq<u8>, c: int) -> Option<i64>
    decreases h.len() - c * 80,
{
    if c < 0 || (c + 1) * 80 > h.len() {
        None
    } else {
        let rec = h.subrange(c * 80, c * 80 + 80);
        if spec_starts_with(rec, kp) {
            if !all_ascii(rec) {
                None
            } else if rec[8] == 61 && rec[9] == 32 {
                spec_card_int(rec)
            } else {
                spec_find_int_from(h, kp, c + 1)
            }
        } else {
            spec_find_int_from(h, kp, c + 1)
        }
    }
}

/// The integer value of keyword `key` in raw header bytes `h`.
pub open spec fn spec_find_header_int(h: Seq<u8>, key: Seq<u8>) -> Option<i64> {
    spec_find_int_from(h, spec_pad_key(key), 0)
}

/// Extract an integer value from raw 80-byte FITS header records by keyword
/// name: the first record starting with the space-padded key whose bytes
/// 8..10 are `= ` decides; its value, with any ` / comment` stripped and
/// trimmed, is parsed as a decimal integer.  A matching record that is not
/// pure ASCII fails the lookup.
pub fn find_header_int(header_bytes: &[u8], key: &[u8]) -> (r: Option<i64>)
    ensures
        r == spec_find_header_int(header_bytes@, key@),
{
    let kp = pad_key_exec(key);
    let n: usize = header_bytes.len();
    if kp.len() > 80 {
        proof {
            lemma_find_int_none_long_key(header_bytes@, kp@, 0);
        }
        return None;
    }
    let full: usize = n / 80;
    let mut c: usize = 0;
    while c < full
        invariant
            n == header_bytes@.len(),
            full == n / 80,
            kp@ =~= spec_pad_key(key@),
            kp@.len() <= 80,
            c <= full,
            spec_find_int_from(header_bytes@, kp@, 0) == spec_find_int_from(
                header_bytes@,
                kp@,
                c as int,
            ),
        decreases full - c,
    {
        assert((c + 1) * 80 <= n) by (nonlinear_arith)
            requires
                c < full,
                full == n / 80,
                n >= 0,
        {}
        let base: usize = c * 80;
        let rec = subvec(header_bytes, base, base + 80);
        proof {
            assert(rec@ =~= header_bytes@.subrange(c as int * 80, c as int * 80 + 80));
        }
        if starts_with_bytes(rec.as_slice(), kp.as_slice()) {
            if !all_ascii_exec(rec.as_slice()) {
                return None;
            }
            if rec[8] == 61 && rec[9] == 32 {
                let tail = subvec(rec.as_slice(), 10, 80);
                proof {
                    assert(tail@ =~= rec@.skip(10));
                }
                let t1 = trim_bytes(tail.as_slice());
                let stripped = strip_fits_comment(t1.as_slice());
                let t2 = trim_bytes(stripped.as_slice());
                let v = parse_i64_bytes(t2.as_slice());
                assert(spec_card_int(rec@) == v);
                return v;
            }
        }
        c += 1;
    }
    proof {
        assert((c as int + 1) * 80 > n) by (nonlinear_arith)
            requires
                c == n / 80,
                n >= 0,
        {}
    }
    None
}

proof fn lemma_find_int_none_long_key(h: Seq<u8>, kp: Seq<u8>, c: int)
    requires
        kp.len() > 80,
    ensures
        spec_find_int_from(h, kp, c) is None,
    decreases h.len() - c * 80,
{
    if c >= 0 && (c + 1) * 80 <= h.len() {
        lemma_find_int_none_long_key(h, kp, c + 1);
    }
}

/// FITS string values escape a quote by doubling it; this undoes that,
/// left to right, like `str::replace("''", "'")`.
pub open spec fn spec_unescape(s: Seq<u8>) -> Seq<u8>
    decreases s.len(),
{
    if s.len() >= 2 && s[0] == 39 && s[1] == 39 {
        seq![39u8] + spec_unescape(s.skip(2))
    } else if s.len() >= 1 {
        seq![s[0]] + spec_unescape(s.skip(1))
    } else {
        Seq::empty()
    }
}

fn unescape_quotes(s: &[u8]) -> (r: Vec<u8>)
    ensures
        r@ =~= spec_unescape(s@),
{
    let n: usize = s.len();
    let mut r: Vec<u8> = Vec::new();
    let mut i: usize = 0;
    proof {
        assert(s@.skip(0) =~= s@);
    }
    while i < n
        invariant
            i <= n == s@.len(),
            spec_unescape(s@) =~= r@ + spec_unescape(s@.skip(i as int)),
        decreases n - i,
    {
        if i + 1 < n && s[i] == 39 && s[i + 1] == 39 {
            proof {
                assert(s@.skip(i as int).skip(2) =~= s@.skip(i + 2));
                assert(s@.skip(i as int)[0] == s@[i as int]);
                assert(s@.skip(i as int)[1] == s@[i + 1]);
            }
            r.push(39);
            i += 2;
        } else {
            proof {
                assert(s@.skip(i as int).skip(1) =~= s@.skip(i + 1));
                assert(s@.skip(i as int)[0] == s@[i as int]);
            }
            r.push(s[i]);
            i += 1;
        }
    }
    proof {
        assert(s@.skip(n as int) =~= Seq::<u8>::empty());
        assert(r@ + Seq::<u8>::empty() =~= r@);
    }
    r
}

/// `COMMENT` as bytes.
pub open spec fn key_comment() -> Seq<u8> {
    seq![67u8, 79u8, 77u8, 77u8, 69u8, 78u8, 84u8]
}

/// `HISTORY` as bytes.
pub open spec fn key_history() -> Seq<u8> {
    seq![72u8, 73u8, 83u8, 84u8, 79u8, 82u8, 89u8]
}

/// `END` as bytes.
pub open spec fn key_end() -> Seq<u8> {
    seq![69u8, 78u8, 68u8]
}

/// `CONTINUE` as bytes.
pub open spec fn key_continue() -> Seq<u8> {
    seq![67u8, 79u8, 78u8, 84u8, 73u8, 78u8, 85u8, 69u8]
}

/// Keys of cards that carry structure or commentary, not metadata; such
/// cards are omitted from the parsed header, as is a blank key.
pub open spec fn is_structural_key(k: Seq<u8>) -> bool {
    k.len() == 0 || k =~= key_comment() || k =~= key_history() || k =~= key_end() || k
        =~= key_continue()
}

fn is_structural_key_exec(k: &[u8]) -> (r: bool)
    ensures
        r == is_structural_key(k@),
{
    if k.len() == 0 {
        return true;
    }
    let comment: Vec<u8> = vec![67u8, 79u8, 77u8, 77u8, 69u8, 78u8, 84u8];
    let history: Vec<u8> = vec![72u8, 73u8, 83u8, 84u8, 79u8, 82u8, 89u8];
    let endk: Vec<u8> = vec![69u8, 78u8, 68u8];
    let contk: Vec<u8> = vec![67u8, 79u8, 78u8, 84u8, 73u8, 78u8, 85u8, 69u8];
    bytes_eq(k, comment.as_slice()) || bytes_eq(k, history.as_slice()) || bytes_eq(
        k,
        endk.as_slice(),
    ) || bytes_eq(k, contk.as_slice())
}

/// The key/value pair one 80-byte record denotes, or `None` for a record
/// that is skipped: not pure ASCII, shorter than a key after trailing
/// whitespace is removed, or structural/commentary.
pub open spec fn spec_parse_card(rec: Seq<u8>) -> Option<(Seq<u8>, Seq<u8>)> {
    if !all_ascii(rec) {
        None
    } else {
        let c = spec_trim_end(rec);
        if c.len() < 8 {
            None
        } else {
            let key = spec_trim(c.take(8));
            if is_structural_key(key) {
                None
            } else {
                let value = if c.len() > 10 && c[8] == 61 && c[9] == 32 {
                    let vs = spec_trim(spec_strip_comment(spec_trim(c.skip(10))));
                    if vs.len() >= 2 && vs[0] == 39 && vs.last() == 39 {
                        spec_trim(spec_unescape(vs.subrange(1, vs.len() - 1)))
                    } else {
                        vs
                    }
                } else if c.len() > 8 {
                    spec_trim(c.skip(8))
                } else {
                    Seq::empty()
                };
                Some((key, value))
            }
        }
    }
}

/// Parse one record into its key and value.
pub fn parse_card(rec: &[u8]) -> (r: Option<(Vec<u8>, Vec<u8>)>)
    ensures
        match r {
            Some(kv) => spec_parse_card(rec@) == Some((kv.0@, kv.1@)),
            None => spec_parse_card(rec@) is None,
        },
{
    if !all_ascii_exec(rec) {
        return None;
    }
    let c = trim_end_bytes(rec);
    let cn: usize = c.len();
    if cn < 8 {
        return None;
    }
    let key_raw = subvec(c.as_slice(), 0, 8);
    proof {
        assert(key_raw@ =~= spec_trim_end(rec@).take(8));
    }
    let key = trim_bytes(key_raw.as_slice());
    if is_structural_key_exec(key.as_slice()) {
        return None;
    }
    let value: Vec<u8> = if cn > 10 && c[8] == 61 && c[9] == 32 {
        let tail = subvec(c.as_slice(), 10, cn);
        proof {
            assert(tail@ =~= spec_trim_end(rec@).skip(10));
        }
        let t1 = trim_bytes(tail.as_slice());
        let stripped = strip_fits_comment(t1.as_slice());
        let vs = trim_bytes(stripped.as_slice());
        let vn: usize = vs.len();
        if vn >= 2 && vs[0] == 39 && vs[vn - 1] == 39 {
            let inner = subvec(vs.as_slice(), 1, vn - 1);
            let un = unescape_quotes(inner.as_slice());
            trim_bytes(un.as_slice())
        } else {
            vs
        }
    } else if cn > 8 {
        let tail = subvec(c.as_slice(), 8, cn);
        proof {
            assert(tail@ =~= spec_trim_end(rec@).skip(8));
        }
        trim_bytes(tail.as_slice())
    } else {
        Vec::new()
    };
    Some((key, value))
}

/// Byte-lexicographic order, as `str::cmp` orders ASCII keys.
pub open spec fn lex_le(a: Seq<u8>, b: Seq<u8>) -> bool
    decreases a.len(),
{
    if a.len() == 0 {
        true
    } else if b.len() == 0 {
        false
    } else if a[0] < b[0] {
        true
    } else if a[0] > b[0] {
        false
    } else {
        lex_le(a.drop_first(), b.drop_first())
    }
}

/// Byte-lexicographic order is total.
pub proof fn lemma_lex_total(a: Seq<u8>, b: Seq<u8>)
    ensures
        lex_le(a, b) || lex_le(b, a),
    decreases a.len(),
{
    if a.len() > 0 && b.len() > 0 && a[0] == b[0] {
        lemma_lex_total(a.drop_first(), b.drop_first());
    }
}

/// Byte-lexicographic order is transitive.
pub proof fn lemma_lex_transitive(a: Seq<u8>, b: Seq<u8>, c: Seq<u8>)
    requires
        lex_le(a, b),
        lex_le(b, c),
    ensures
        lex_le(a, c),
    decreases a.len(),
{
    if a.len() > 0 && b.len() > 0 && c.len() > 0 && a[0] == b[0] && b[0] == c[0] {
        lemma_lex_transitive(a.drop_first(), b.drop_first(), c.drop_first());
    }
}

proof fn lemma_lex_skip(a: Seq<u8>, b: Seq<u8>, i: int)
    requires
        0 <= i <= a.len(),
        i <= b.len(),
        forall|k: int| 0 <= k < i ==> a[k] == b[k],
    ensures
        lex_le(a, b) == lex_le(a.skip(i), b.skip(i)),
    decreases i,
{
    if i > 0 {
        if a.len() > 0 && b.len() > 0 {
            lemma_lex_skip(a.drop_first(), b.drop_first(), i - 1);
            assert(a.drop_first().skip(i - 1) =~= a.skip(i));
            assert(b.drop_first().skip(i - 1) =~= b.skip(i));
        }
    } else {
        assert(a.skip(0) =~= a);
        assert(b.skip(0) =~= b);
    }
}

/// Byte-lexicographic comparison.
pub fn lex_le_exec(a: &[u8], b: &[u8]) -> (r: bool)
    ensures
        r == lex_le(a@, b@),
{
    let an: usize = a.len();
    let bn: usize = b.len();
    let m: usize = if an < bn {
        an
    } else {
        bn
    };
    let mut i: usize = 0;
    while i < m
        invariant
            i <= m,
            m == if an < bn {
                an
            } else {
                bn
            },
            an == a@.len(),
            bn == b@.len(),
            forall|k: int| 0 <= k < i ==> a@[k] == b@[k],
        decreases m - i,
    {
        if a[i] < b[i] {
            proof {
                lemma_lex_skip(a@, b@, i as int);
                assert(a@.skip(i as int)[0] == a@[i as int]);
                assert(b@.skip(i as int)[0] == b@[i as int]);
            }
            return true;
        }
        if a[i] > b[i] {
            proof {
                lemma_lex_skip(a@, b@, i as int);
                assert(a@.skip(i as int)[0] == a@[i as int]);
                assert(b@.skip(i as int)[0] == b@[i as int]);
            }
            return false;
        }
        i += 1;
    }
    proof {
        lemma_lex_skip(a@, b@, m as int);
        if an <= bn {
            assert(a@.skip(m as int).len() == 0);
        } else {
            assert(a@.skip(m as int).len() > 0);
            assert(b@.skip(m as int).len() == 0);
        }
    }
    an <= bn
}

/// View of a list of byte-pair cards as spec-level pairs.
pub open spec fn cards_view(v: Seq<(Vec<u8>, Vec<u8>)>) -> Seq<(Seq<u8>, Seq<u8>)> {
    v.map_values(|p: (Vec<u8>, Vec<u8>)| (p.0@, p.1@))
}

/// The cards are sorted by key, ascending.
pub open spec fn cards_sorted(cs: Seq<(Seq<u8>, Seq<u8>)>) -> bool {
    forall|i: int, j: int| 0 <= i <= j < cs.len() ==> lex_le(#[trigger] cs[i].0, #[trigger] cs[j].0)
}

/// Sort cards by key, ascending; the result is a permutation of the input.
pub fn sort_cards(cards: Vec<(Vec<u8>, Vec<u8>)>) -> (r: Vec<(Vec<u8>, Vec<u8>)>)
    ensures
        cards_sorted(cards_view(r@)),
        cards_view(r@).to_multiset() == cards_view(cards@).to_multiset(),
{
    broadcast use vstd::seq_lib::group_to_multiset_ensures;

    let n: usize = cards.len();
    let mut out: Vec<(Vec<u8>, Vec<u8>)> = Vec::new();
    let mut idx: usize = 0;
    proof {
        assert(cards@.take(0) =~= Seq::<(Vec<u8>, Vec<u8>)>::empty());
        assert(cards_view(Seq::<(Vec<u8>, Vec<u8>)>::empty()) =~= Seq::<(
            Seq<u8>,
            Seq<u8>,
        )>::empty());
    }
    while idx < n
        invariant
            idx <= n == cards@.len(),
            cards_sorted(cards_view(out@)),
            cards_view(out@).to_multiset() == cards_view(cards@.take(idx as int)).to_multiset(),
        decreases n - idx,
    {
        broadcast use vstd::seq_lib::group_to_multiset_ensures;

        let c = (subvec(cards[idx].0.as_slice(), 0, cards[idx].0.len()), subvec(
            cards[idx].1.as_slice(),
            0,
            cards[idx].1.len(),
        ));
        proof {
            assert(c.0@ =~= cards@[idx as int].0@);
            assert(c.1@ =~= cards@[idx as int].1@);
        }
        // Find the first position whose key is strictly greater.
        let on: usize = out.len();
        let mut p: usize = 0;
        while p < on && lex_le_exec(out[p].0.as_slice(), c.0.as_slice())
            invariant
                p <= on == out@.len(),
                forall|k: int| 0 <= k < p ==> lex_le(#[trigger] cards_view(out@)[k].0, c.0@),
            decreases on - p,
        {
            p += 1;
        }
        proof {
            if p < on {
                lemma_lex_total(out@[p as int].0@, c.0@);
            }
        }
        let ghost old_out = out@;
        out.insert(p, c);
        proof {
            let ov = cards_view(old_out);
            let nv = cards_view(out@);
            assert(out@ =~= old_out.insert(p as int, c));
            // Pointwise: the new view is the old view with the pair put in.
            assert(nv =~= ov.insert(p as int, (c.0@, c.1@)));
            lemma_insert_multiset(ov, (c.0@, c.1@), p as int);
            assert(cards_view(cards@.take(idx + 1)) =~= cards_view(cards@.take(idx as int)).push(
                (c.0@, c.1@),
            ));
            ov.insert_ensures(p as int, (c.0@, c.1@));
            // Sortedness: everything before p is <= c, everything after is >= c.
            assert forall|i: int, j: int| 0 <= i <= j < nv.len() implies lex_le(
                #[trigger] nv[i].0,
                #[trigger] nv[j].0,
            ) by {
                if j < p {
                    assert(nv[i] == ov[i] && nv[j] == ov[j]);
                } else if i < p && j == p {
                    assert(nv[i] == ov[i]);
                } else if i < p && j > p {
                    assert(nv[i] == ov[i]);
                    assert(nv[j] == ov[j - 1]);
                } else if i == p && j == p {
                    lemma_lex_total(c.0@, c.0@);
                } else if i == p && j > p {
                    assert(nv[j] == ov[j - 1]);
                    lemma_lex_total(ov[p as int].0, c.0@);
                    lemma_lex_transitive(c.0@, ov[p as int].0, ov[j - 1].0);
                } else {
                    assert(nv[i] == ov[i - 1] && nv[j] == ov[j - 1]);
                }
            }
        }
        idx += 1;
    }
    proof {
        assert(cards@.take(n as int) =~= cards@);
    }
    out
}

proof fn lemma_insert_multiset(s: Seq<(Seq<u8>, Seq<u8>)>, x: (Seq<u8>, Seq<u8>), p: int)
    requires
        0 <= p <= s.len(),
    ensures
        s.insert(p, x).to_multiset() == s.push(x).to_multiset(),
    decreases s.len() - p,
{
    broadcast use vstd::seq_lib::group_to_multiset_ensures;

    if p == s.len() {
        assert(s.insert(p, x) =~= s.push(x));
    } else {
        // s.insert(p, x) = s.take(p) + [x] + s.skip(p)
        let a = s.take(p);
        let b = s.skip(p);
        assert(s.insert(p, x) =~= a + (seq![x] + b));
        assert(s.push(x) =~= a + (b + seq![x]));
        vstd::seq_lib::lemma_multiset_commutative(a, seq![x] + b);
        vstd::seq_lib::lemma_multiset_commutative(a, b + seq![x]);
        vstd::seq_lib::lemma_multiset_commutative(seq![x], b);
        vstd::seq_lib::lemma_multiset_commutative(b, seq![x]);
        assert((seq![x] + b).to_multiset() == (b + seq![x]).to_multiset());
    }
}

/// An `END` record: `END` followed by at least two spaces (tolerant of
/// trailing-space variants).
pub open spec fn end_pat() -> Seq<u8> {
    seq![69u8, 78u8, 68u8, 32u8, 32u8]
}

pub open spec fn is_end_rec(rec: Seq<u8>) -> bool {
    spec_starts_with(rec, end_pat())
}

/// The 2880-byte block at `off` holds an `END` record.
pub open spec fn block_has_end(h: Seq<u8>, off: int) -> bool {
    exists|k: int|
        0 <= k < 36 && is_end_rec(#[trigger] h.subrange(off + k * 80, off + k * 80 + 80))
}

fn block_has_end_exec(h: &[u8], off: usize) -> (r: bool)
    requires
        off + 2880 <= h@.len(),
    ensures
        r == block_has_end(h@, off as int),
{
    let pat: Vec<u8> = vec![69u8, 78u8, 68u8, 32u8, 32u8];
    let n: usize = h.len();
    let mut k: usize = 0;
    while k < 36
        invariant
            k <= 36,
            n == h@.len(),
            off + 2880 <= n,
            pat@ =~= end_pat(),
            forall|j: int|
                0 <= j < k ==> !is_end_rec(#[trigger] h@.subrange(
                    off + j * 80,
                    off + j * 80 + 80,
                )),
        decreases 36 - k,
    {
        let base: usize = off + k * 80;
        let rec = subvec(h, base, base + 80);
        proof {
            assert(rec@ =~= h@.subrange(off + k as int * 80, off + k as int * 80 + 80));
        }
        if starts_with_bytes(rec.as_slice(), pat.as_slice()) {
            return true;
        }
        k += 1;
    }
    false
}

/// Where the header that starts at block offset `off` ends: the offset just
/// past its `END` block.  A clean end of file before the `END` card is a
/// `FormatError`; a partial block (or an `off` past the end, from a
/// truncated data segment) is a `FileError`.
pub open spec fn spec_header_end(h: Seq<u8>, off: int) -> Result<int, crate::error::FitsError>
    decreases h.len() - off,
{
    if off < 0 || off > h.len() {
        Err(crate::error::FitsError::FileError)
    } else if off == h.len() {
        Err(crate::error::FitsError::FormatError)
    } else if h.len() - off < 2880 {
        Err(crate::error::FitsError::FileError)
    } else if block_has_end(h, off) {
        Ok(off + 2880)
    } else {
        spec_header_end(h, off + 2880)
    }
}

pub fn header_end_exec(h: &[u8], off: usize) -> (r: Result<usize, crate::error::FitsError>)
    ensures
        match r {
            Ok(e) => spec_header_end(h@, off as int) == Ok::<int, crate::error::FitsError>(
                e as int,
            ) && off < e <= h@.len(),
            Err(x) => spec_header_end(h@, off as int) == Err::<int, crate::error::FitsError>(x),
        },
{
    let n: usize = h.len();
    let mut cur: usize = off;
    loop
        invariant
            n == h@.len(),
            off <= cur,
            spec_header_end(h@, off as int) == spec_header_end(h@, cur as int),
        decreases n + 1 - cur,
    {
        if cur > n {
            return Err(crate::error::FitsError::FileError);
        }
        if cur == n {
            return Err(crate::error::FitsError::FormatError);
        }
        if n - cur < 2880 {
            return Err(crate::error::FitsError::FileError);
        }
        if block_has_end_exec(h, cur) {
            return Ok(cur + 2880);
        }
        cur += 2880;
    }
}

/// `BITPIX` as bytes.
pub open spec fn key_bitpix() -> Seq<u8> {
    seq![66u8, 73u8, 84u8, 80u8, 73u8, 88u8]
}

/// `NAXIS` as bytes.
pub open spec fn key_naxis() -> Seq<u8> {
    seq![78u8, 65u8, 88u8, 73u8, 83u8]
}

/// The decimal digits of `1 <= i <= 999`.
pub open spec fn dec_digits(i: int) -> Seq<u8> {
    if i < 10 {
        seq![(48 + i) as u8]
    } else if i < 100 {
        seq![(48 + i / 10) as u8, (48 + i % 10) as u8]
    } else {
        seq![(48 + i / 100) as u8, (48 + (i / 10) % 10) as u8, (48 + i % 10) as u8]
    }
}

/// `NAXISi` as bytes.
pub open spec fn axis_key(i: int) -> Seq<u8> {
    key_naxis() + dec_digits(i)
}

fn make_axis_key(i: u16) -> (r: Vec<u8>)
    requires
        1 <= i <= 999,
    ensures
        r@ =~= axis_key(i as int),
{
    let mut r: Vec<u8> = vec![78u8, 65u8, 88u8, 73u8, 83u8];
    if i < 10 {
        r.push(48 + i as u8);
    } else if i < 100 {
        r.push(48 + (i / 10) as u8);
        r.push(48 + (i % 10) as u8);
    } else {
        r.push(48 + (i / 100) as u8);
        r.push(48 + ((i / 10) % 100 % 10) as u8);
        r.push(48 + (i % 10) as u8);
    }
    proof {
        assert((i as int / 10) % 10 == (i as int / 10) % 100 % 10) by (nonlinear_arith)
            requires
                1 <= i <= 999,
        {}
    }
    r
}

/// The length of axis `i`, clamped below at 0; a missing or unreadable
/// axis card counts as 0.
pub open spec fn axis_val(region: Seq<u8>, i: int) -> int {
    match spec_find_header_int(region, axis_key(i)) {
        Some(v) => if v > 0 {
            v as int
        } else {
            0
        },
        None => 0,
    }
}

/// Multiplication saturating at `u64::MAX`.
pub open spec fn sat_mul_u64(a: int, b: int) -> int {
    if a * b > 0xFFFF_FFFF_FFFF_FFFF {
        0xFFFF_FFFF_FFFF_FFFF
    } else {
        a * b
    }
}

/// The product of axes `i..=naxis` starting from `acc`, saturating at
/// `u64::MAX` (a saturated count already exceeds any real file).
pub open spec fn axes_npix(region: Seq<u8>, naxis: int, i: int, acc: int) -> int
    decreases naxis + 1 - i,
{
    if i > naxis || i < 1 {
        acc
    } else {
        axes_npix(region, naxis, i + 1, sat_mul_u64(acc, axis_val(region, i)))
    }
}

pub fn axis_val_exec(region: &[u8], i: u16) -> (r: u64)
    requires
        1 <= i <= 999,
    ensures
        r == axis_val(region@, i as int),
{
    let key = make_axis_key(i);
    match find_header_int(region, key.as_slice()) {
        Some(v) => if v > 0 {
            v as u64
        } else {
            0
        },
        None => 0,
    }
}

/// Size in bytes of the data segment that follows a header whose cards are
/// `region`, rounded up to a whole number of 2880-byte blocks.  Computed
/// from `BITPIX` and the `NAXIS`/`NAXISn` cards; `NAXIS` above 999 (the
/// notation admits at most three digits) counts as no data.
pub open spec fn spec_data_size(region: Seq<u8>) -> int {
    let bitpix = match spec_find_header_int(region, key_bitpix()) {
        Some(v) => v as int,
        None => 8,
    };
    let naxis = match spec_find_header_int(region, key_naxis()) {
        Some(v) => v as int,
        None => 0,
    };
    if naxis == 0 || naxis > 999 {
        0
    } else {
        let bits_per = if bitpix < 0 {
            -bitpix
        } else {
            bitpix
        };
        let npix = axes_npix(region, naxis, 1, 1);
        let nbytes = (npix * bits_per + 7) / 8;
        ((nbytes + 2879) / 2880) * 2880
    }
}

pub fn data_size_exec(region: &[u8]) -> (r: u128)
    ensures
        r == spec_data_size(region@),
{
    let bitpix_key: Vec<u8> = vec![66u8, 73u8, 84u8, 80u8, 73u8, 88u8];
    proof {
        assert(bitpix_key@ =~= key_bitpix());
    }
    let bitpix: i64 = match find_header_int(region, bitpix_key.as_slice()) {
        Some(v) => v,
        None => 8,
    };
    let naxis_key_v: Vec<u8> = vec![78u8, 65u8, 88u8, 73u8, 83u8];
    proof {
        assert(naxis_key_v@ =~= key_naxis());
    }
    let naxis: i64 = match find_header_int(region, naxis_key_v.as_slice()) {
        Some(v) => v,
        None => 0,
    };
    if naxis == 0 || naxis > 999 {
        return 0;
    }
    let bits_per: u64 = if bitpix < 0 {
        if bitpix == i64::MIN {
            9223372036854775808u64
        } else {
            (-bitpix) as u64
        }
    } else {
        bitpix as u64
    };
    let mut npix: u64 = 1;
    if naxis > 0 {
        let na: u16 = naxis as u16;
        let mut i: u16 = 1;
        while i <= na
            invariant
                1 <= i <= na + 1,
                1 <= na == naxis <= 999,
                axes_npix(region@, naxis as int, 1, 1) == axes_npix(
                    region@,
                    naxis as int,
                    i as int,
                    npix as int,
                ),
            decreases na + 1 - i,
        {
            let v: u64 = axis_val_exec(region, i);
            proof {
                assert((npix as int) * (v as int) <= 0xFFFF_FFFF_FFFF_FFFF
                    * 0xFFFF_FFFF_FFFF_FFFF) by (nonlinear_arith)
                    requires
                        npix <= 0xFFFF_FFFF_FFFF_FFFFu64,
                        v <= 0xFFFF_FFFF_FFFF_FFFFu64,
                {}
            }
            let prod: u128 = (npix as u128) * (v as u128);
            npix = if prod > 0xFFFF_FFFF_FFFF_FFFFu128 {
                0xFFFF_FFFF_FFFF_FFFFu64
            } else {
                prod as u64
            };
            i += 1;
        }
    }
    proof {
        assert((npix as int) * (bits_per as int) <= 0xFFFF_FFFF_FFFF_FFFF
            * 0x8000_0000_0000_0000) by (nonlinear_arith)
            requires
                npix <= 0xFFFF_FFFF_FFFF_FFFFu64,
                bits_per <= 0x8000_0000_0000_0000u64,
        {}
    }
    let nbits: u128 = (npix as u128) * (bits_per as u128);
    let nbytes: u128 = (nbits + 7) / 8;
    proof {
        assert(((nbytes as int + 2879) / 2880) * 2880 <= nbytes + 2879) by (nonlinear_arith)
            requires
                nbytes >= 0,
        {}
    }
    ((nbytes + 2879) / 2880) * 2880
}

/// The byte range `[start, end)` of the header of HDU number `idx`,
/// walking HDUs from offset `off`: each one's header runs to its `END`
/// block, and its data segment, sized by its own cards, is skipped.
pub open spec fn spec_hdu_region(h: Seq<u8>, off: int, idx: int) -> Result<
    (int, int),
    crate::error::FitsError,
>
    decreases idx,
{
    match spec_header_end(h, off) {
        Err(e) => Err(e),
        Ok(he) => if idx <= 0 {
            Ok((off, he))
        } else {
            spec_hdu_region(h, he + spec_data_size(h.subrange(off, he)), idx - 1)
        },
    }
}

fn hdu_region(h: &[u8], hdu_idx: usize) -> (r: Result<(usize, usize), crate::error::FitsError>)
    ensures
        match r {
            Ok(se) => spec_hdu_region(h@, 0, hdu_idx as int) == Ok::<
                (int, int),
                crate::error::FitsError,
            >((se.0 as int, se.1 as int)) && se.0 < se.1 <= h@.len(),
            Err(e) => spec_hdu_region(h@, 0, hdu_idx as int) == Err::<
                (int, int),
                crate::error::FitsError,
            >(e),
        },
{
    let n: usize = h.len();
    let mut off: usize = 0;
    let mut seen: usize = 0;
    while seen < hdu_idx
        invariant
            seen <= hdu_idx,
            off <= n == h@.len(),
            spec_hdu_region(h@, 0, hdu_idx as int) == spec_hdu_region(
                h@,
                off as int,
                hdu_idx - seen,
            ),
        decreases hdu_idx - seen,
    {
        let he: usize = match header_end_exec(h, off) {
            Ok(e) => e,
            Err(x) => {
                return Err(x);
            },
        };
        let region = subvec(h, off, he);
        proof {
            assert(region@ =~= h@.subrange(off as int, he as int));
        }
        let skip: u128 = data_size_exec(region.as_slice());
        if skip > (n - he) as u128 {
            proof {
                let bad = he + spec_data_size(h@.subrange(off as int, he as int));
                assert(bad > n);
                assert(spec_header_end(h@, bad) == Err::<int, crate::error::FitsError>(
                    crate::error::FitsError::FileError,
                ));
                assert(spec_hdu_region(h@, bad, hdu_idx - seen - 1) == Err::<
                    (int, int),
                    crate::error::FitsError,
                >(crate::error::FitsError::FileError));
            }
            return Err(crate::error::FitsError::FileError);
        }
        off = he + (skip as usize);
        seen += 1;
    }
    match header_end_exec(h, off) {
        Ok(he) => Ok((off, he)),
        Err(x) => Err(x),
    }
}

/// The key/value cards of the records in `h[off..end)`, in file order,
/// skipped records omitted.
pub open spec fn spec_cards_from(h: Seq<u8>, off: int, end: int) -> Seq<(Seq<u8>, Seq<u8>)>
    decreases end - off,
{
    if off < 0 || off + 80 > end || end > h.len() {
        Seq::empty()
    } else {
        match spec_parse_card(h.subrange(off, off + 80)) {
            Some(kv) => seq![kv] + spec_cards_from(h, off + 80, end),
            None => spec_cards_from(h, off + 80, end),
        }
    }
}

pub fn parse_cards_region(h: &[u8], start: usize, end: usize) -> (r: Vec<(Vec<u8>, Vec<u8>)>)
    requires
        start <= end <= h@.len(),
    ensures
        cards_view(r@) =~= spec_cards_from(h@, start as int, end as int),
{
    let mut r: Vec<(Vec<u8>, Vec<u8>)> = Vec::new();
    let mut cur: usize = start;
    proof {
        assert(cards_view(r@) =~= Seq::<(Seq<u8>, Seq<u8>)>::empty());
    }
    while end - cur >= 80
        invariant
            start <= cur <= end <= h@.len(),
            spec_cards_from(h@, start as int, end as int) =~= cards_view(r@) + spec_cards_from(
                h@,
                cur as int,
                end as int,
            ),
        decreases end - cur,
    {
        let rec = subvec(h, cur, cur + 80);
        proof {
            assert(rec@ =~= h@.subrange(cur as int, cur as int + 80));
        }
        let ghost old_r = r@;
        match parse_card(rec.as_slice()) {
            Some(kv) => {
                r.push(kv);
                proof {
                    assert(cards_view(r@) =~= cards_view(old_r) + seq![
                        spec_parse_card(rec@)->Some_0,
                    ]);
                    assert(cards_view(old_r) + (seq![spec_parse_card(rec@)->Some_0]
                        + spec_cards_from(h@, cur + 80, end as int)) =~= (cards_view(old_r)
                        + seq![spec_parse_card(rec@)->Some_0]) + spec_cards_from(
                        h@,
                        cur + 80,
                        end as int,
                    ));
                }
            },
            None => {
            },
        }
        cur += 80;
    }
    proof {
        assert(spec_cards_from(h@, cur as int, end as int) =~= Seq::<(Seq<u8>, Seq<u8>)>::empty());
        assert(cards_view(r@) + Seq::<(Seq<u8>, Seq<u8>)>::empty() =~= cards_view(r@));
    }
    r
}

/// All cards' keys and values are ASCII.
pub open spec fn cards_ascii(cs: Seq<(Seq<u8>, Seq<u8>)>) -> bool {
    forall|i: int|
        0 <= i < cs.len() ==> all_ascii((#[trigger] cs[i]).0) && all_ascii(cs[i].1)
}

proof fn lemma_ascii_subrange(s: Seq<u8>, a: int, b: int)
    requires
        all_ascii(s),
        0 <= a <= b <= s.len(),
    ensures
        all_ascii(s.subrange(a, b)),
{
    assert forall|k: int| 0 <= k < b - a implies #[trigger] s.subrange(a, b)[k] < 128 by {
        assert(s.subrange(a, b)[k] == s[a + k]);
    }
}

proof fn lemma_quote_end_bound(t: Seq<u8>, j: int)
    ensures
        match spec_quote_end(t, j) {
            Some(i) => j <= i < t.len(),
            None => true,
        },
    decreases t.len() - j,
{
    if j >= 0 && j < t.len() {
        if t[j] == 39 {
            if j + 1 < t.len() && t[j + 1] == 39 {
                lemma_quote_end_bound(t, j + 2);
            }
        } else {
            lemma_quote_end_bound(t, j + 1);
        }
    }
}

proof fn lemma_find_sep_bound(t: Seq<u8>, j: int)
    ensures
        match spec_find_sep(t, j) {
            Some(p) => j <= p && p + 3 <= t.len(),
            None => true,
        },
    decreases t.len() - j,
{
    if j >= 0 && j + 3 <= t.len() {
        if !(t[j] == 32 && t[j + 1] == 47 && t[j + 2] == 32) {
            lemma_find_sep_bound(t, j + 1);
        }
    }
}

proof fn lemma_ascii_trim_start(s: Seq<u8>)
    requires
        all_ascii(s),
    ensures
        all_ascii(spec_trim_start(s)),
    decreases s.len(),
{
    if s.len() > 0 && crate::text::is_ws(s[0]) {
        assert(all_ascii(s.drop_first()));
        lemma_ascii_trim_start(s.drop_first());
    }
}

proof fn lemma_ascii_trim_end(s: Seq<u8>)
    requires
        all_ascii(s),
    ensures
        all_ascii(spec_trim_end(s)),
    decreases s.len(),
{
    if s.len() > 0 && crate::text::is_ws(s.last()) {
        assert(all_ascii(s.drop_last()));
        lemma_ascii_trim_end(s.drop_last());
    }
}

proof fn lemma_ascii_trim(s: Seq<u8>)
    requires
        all_ascii(s),
    ensures
        all_ascii(spec_trim(s)),
{
    lemma_ascii_trim_start(s);
    lemma_ascii_trim_end(spec_trim_start(s));
}

proof fn lemma_ascii_unescape(s: Seq<u8>)
    requires
        all_ascii(s),
    ensures
        all_ascii(spec_unescape(s)),
    decreases s.len(),
{
    if s.len() >= 2 && s[0] == 39 && s[1] == 39 {
        assert(all_ascii(s.skip(2)));
        lemma_ascii_unescape(s.skip(2));
    } else if s.len() >= 1 {
        assert(all_ascii(s.skip(1)));
        lemma_ascii_unescape(s.skip(1));
    }
}

proof fn lemma_ascii_strip_comment(s: Seq<u8>)
    requires
        all_ascii(s),
    ensures
        all_ascii(spec_strip_comment(s)),
{
    lemma_ascii_trim(s);
    let t = spec_trim(s);
    if t.len() > 0 && t[0] == 39 {
        lemma_quote_end_bound(t, 1);
        match spec_quote_end(t, 1) {
            Some(i) => {
                lemma_ascii_subrange(t, 0, i + 1);
            },
            None => {
            },
        }
    } else {
        lemma_find_sep_bound(t, 0);
        match spec_find_sep(t, 0) {
            Some(p) => {
                lemma_ascii_subrange(t, 0, p);
                lemma_ascii_trim_end(t.take(p));
            },
            None => {
            },
        }
    }
}

proof fn lemma_parse_card_ascii(rec: Seq<u8>)
    ensures
        match spec_parse_card(rec) {
            Some(kv) => all_ascii(kv.0) && all_ascii(kv.1),
            None => true,
        },
{
    if spec_parse_card(rec) is Some {
        assert(all_ascii(rec));
        lemma_ascii_trim_end(rec);
        let c = spec_trim_end(rec);
        lemma_ascii_subrange(c, 0, 8);
        lemma_ascii_trim(c.take(8));
        if c.len() > 10 && c[8] == 61 && c[9] == 32 {
            lemma_ascii_subrange(c, 10, c.len() as int);
            assert(c.skip(10) =~= c.subrange(10, c.len() as int));
            lemma_ascii_trim(c.skip(10));
            lemma_ascii_strip_comment(spec_trim(c.skip(10)));
            lemma_ascii_trim(spec_strip_comment(spec_trim(c.skip(10))));
            let vs = spec_trim(spec_strip_comment(spec_trim(c.skip(10))));
            if vs.len() >= 2 && vs[0] == 39 && vs.last() == 39 {
                lemma_ascii_subrange(vs, 1, vs.len() - 1);
                lemma_ascii_unescape(vs.subrange(1, vs.len() - 1));
                lemma_ascii_trim(spec_unescape(vs.subrange(1, vs.len() - 1)));
            }
        } else if c.len() > 8 {
            lemma_ascii_subrange(c, 8, c.len() as int);
            assert(c.skip(8) =~= c.subrange(8, c.len() as int));
            lemma_ascii_trim(c.skip(8));
        }
    }
}

pub proof fn lemma_cards_from_ascii(h: Seq<u8>, off: int, end: int)
    ensures
        cards_ascii(spec_cards_from(h, off, end)),
    decreases end - off,
{
    if !(off < 0 || off + 80 > end || end > h.len()) {
        lemma_parse_card_ascii(h.subrange(off, off + 80));
        lemma_cards_from_ascii(h, off + 80, end);
        let rest = spec_cards_from(h, off + 80, end);
        match spec_parse_card(h.subrange(off, off + 80)) {
            Some(kv) => {
                let whole = seq![kv] + rest;
                assert(whole.len() == 1 + rest.len());
                assert(whole[0] == kv);
                assert forall|i: int| 0 <= i < whole.len() implies all_ascii(
                    #[trigger] whole[i].0,
                ) && all_ascii(#[trigger] whole[i].1) by {
                    if i > 0 {
                        assert(whole[i] == rest[i - 1]);
                        assert(all_ascii(rest[i - 1].0) && all_ascii(rest[i - 1].1));
                    }
                }
            },
            None => {
            },
        }
    }
}

pub proof fn lemma_cards_ascii_of_multiset(a: Seq<(Seq<u8>, Seq<u8>)>, b: Seq<(Seq<u8>, Seq<u8>)>)
    requires
        a.to_multiset() == b.to_multiset(),
        cards_ascii(b),
    ensures
        cards_ascii(a),
{
    broadcast use vstd::seq_lib::group_to_multiset_ensures;

    assert forall|i: int| 0 <= i < a.len() implies all_ascii((#[trigger] a[i]).0) && all_ascii(
        a[i].1,
    ) by {
        assert(a.contains(a[i]));
        assert(a.to_multiset().count(a[i]) > 0);
        assert(b.to_multiset().count(a[i]) > 0);
        assert(b.contains(a[i]));
        let j = choose|j: int| 0 <= j < b.len() && b[j] == a[i];
        assert(all_ascii(b[j].0) && all_ascii(b[j].1));
    }
}

/// The sorted key/value cards of HDU number `hdu_idx`, as byte strings.
pub fn read_header_cards(bytes: &[u8], hdu_idx: usize) -> (r: Result<
    Vec<(Vec<u8>, Vec<u8>)>,
    crate::error::FitsError,
>)
    ensures
        match r {
            Ok(v) => {
                &&& spec_hdu_region(bytes@, 0, hdu_idx as int) is Ok
                &&& cards_sorted(cards_view(v@))
                &&& cards_view(v@).to_multiset() == spec_cards_from(
                    bytes@,
                    spec_hdu_region(bytes@, 0, hdu_idx as int)->Ok_0.0,
                    spec_hdu_region(bytes@, 0, hdu_idx as int)->Ok_0.1,
                ).to_multiset()
                &&& cards_ascii(cards_view(v@))
            },
            Err(e) => spec_hdu_region(bytes@, 0, hdu_idx as int) == Err::<
                (int, int),
                crate::error::FitsError,
            >(e),
        },
{
    let (start, end) = match hdu_region(bytes, hdu_idx) {
        Ok(se) => se,
        Err(e) => {
            return Err(e);
        },
    };
    let cards = parse_cards_region(bytes, start, end);
    let sorted = sort_cards(cards);
    proof {
        lemma_cards_from_ascii(bytes@, start as int, end as int);
        lemma_cards_ascii_of_multiset(
            cards_view(sorted@),
            spec_cards_from(bytes@, start as int, end as int),
        );
    }
    Ok(sorted)
}

/// The bytes an ASCII string stands for, code point by code point.
pub open spec fn chars_bytes(s: Seq<char>) -> Seq<u8> {
    Seq::new(s.len(), |i: int| (s[i] as u32) as u8)
}

/// All characters are ASCII.
pub open spec fn chars_ascii(s: Seq<char>) -> bool {
    forall|i: int| 0 <= i < s.len() ==> ((#[trigger] s[i]) as u32) < 128
}

/// Relies on `String::from_utf8_lossy`: ASCII bytes are valid UTF-8 and
/// decode to the characters with the same code points, one per byte.
#[verifier::external_body]
fn ascii_to_string(b: &Vec<u8>) -> (r: String)
    requires
        all_ascii(b@),
    ensures
        r@.len() == b@.len(),
        forall|i: int| 0 <= i < b@.len() ==> (#[trigger] r@[i]) as u32 == b@[i] as u32,
{
    String::from_utf8_lossy(b.as_slice()).into_owned()
}

/// View of string header pairs as byte pairs.
pub open spec fn strings_bytes(v: Seq<(String, String)>) -> Seq<(Seq<u8>, Seq<u8>)> {
    v.map_values(|p: (String, String)| (chars_bytes(p.0@), chars_bytes(p.1@)))
}

/// Read all metadata cards of HDU number `hdu_idx` from raw FITS bytes:
/// walk the preceding HDUs, collect this header's key/value cards with
/// commentary and structural cards omitted, and sort them by key.  The
/// strings are ASCII, and byte for byte they are a sorted permutation of
/// the header's parsed cards.
pub fn read_headers(bytes: &[u8], hdu_idx: usize) -> (r: Result<
    Vec<(String, String)>,
    crate::error::FitsError,
>)
    ensures
        match r {
            Ok(v) => {
                &&& spec_hdu_region(bytes@, 0, hdu_idx as int) is Ok
                &&& cards_sorted(strings_bytes(v@))
                &&& strings_bytes(v@).to_multiset() == spec_cards_from(
                    bytes@,
                    spec_hdu_region(bytes@, 0, hdu_idx as int)->Ok_0.0,
                    spec_hdu_region(bytes@, 0, hdu_idx as int)->Ok_0.1,
                ).to_multiset()
                &&& forall|i: int|
                    0 <= i < v@.len() ==> chars_ascii((#[trigger] v@[i]).0@) && chars_ascii(
                        v@[i].1@,
                    )
            },
            Err(e) => spec_hdu_region(bytes@, 0, hdu_idx as int) == Err::<
                (int, int),
                crate::error::FitsError,
            >(e),
        },
{
    let cards = match read_header_cards(bytes, hdu_idx) {
        Ok(v) => v,
        Err(e) => {
            return Err(e);
        },
    };
    Ok(cards_to_strings(&cards))
}

/// Turn byte cards into string pairs, byte for byte.
pub fn cards_to_strings(cards: &Vec<(Vec<u8>, Vec<u8>)>) -> (out: Vec<(String, String)>)
    requires
        cards_ascii(cards_view(cards@)),
    ensures
        strings_bytes(out@) =~= cards_view(cards@),
        forall|k: int|
            0 <= k < out@.len() ==> chars_ascii((#[trigger] out@[k]).0@) && chars_ascii(
                out@[k].1@,
            ),
{
    let n: usize = cards.len();
    let mut out: Vec<(String, String)> = Vec::new();
    let mut i: usize = 0;
    proof {
        assert(strings_bytes(out@) =~= cards_view(cards@).subrange(0, 0));
    }
    while i < n
        invariant
            i <= n == cards@.len(),
            out@.len() == i,
            cards_ascii(cards_view(cards@)),
            strings_bytes(out@) =~= cards_view(cards@).subrange(0, i as int),
            forall|k: int|
                0 <= k < i ==> chars_ascii((#[trigger] out@[k]).0@) && chars_ascii(out@[k].1@),
        decreases n - i,
    {
        proof {
            assert(cards_view(cards@)[i as int].0 == cards@[i as int].0@);
        }
        let ks = ascii_to_string(&cards[i].0);
        let vs = ascii_to_string(&cards[i].1);
        proof {
            assert(chars_bytes(ks@) =~= cards@[i as int].0@);
            assert(chars_bytes(vs@) =~= cards@[i as int].1@);
        }
        out.push((ks, vs));
        proof {
            assert(strings_bytes(out@) =~= cards_view(cards@).subrange(0, i + 1));
        }
        i += 1;
    }
    proof {
        assert(cards_view(cards@).subrange(0, n as int) =~= cards_view(cards@));
    }
    out
}

/// Within input whose non-structural cards carry pairwise-distinct keys, a
/// header reader's output keys are unique, besides being sorted: a sorted
/// permutation of cards with distinct keys has pairwise-distinct keys.
pub proof fn lemma_header_keys_unique(
    cards: Seq<(Seq<u8>, Seq<u8>)>,
    sorted: Seq<(Seq<u8>, Seq<u8>)>,
)
    requires
        sorted.to_multiset() == cards.to_multiset(),
        cards_sorted(sorted),
        forall|i: int, j: int|
            0 <= i < j < cards.len() ==> (#[trigger] cards[i]).0 != (#[trigger] cards[j]).0,
    ensures
        forall|i: int, j: int|
            0 <= i < j < sorted.len() ==> (#[trigger] sorted[i]).0 != (#[trigger] sorted[j]).0,
{
    broadcast use vstd::seq_lib::group_to_multiset_ensures;

    assert forall|i: int, j: int|
        0 <= i < j < sorted.len() implies (#[trigger] sorted[i]).0 != (#[trigger] sorted[j]).0 by {
        if sorted[i].0 == sorted[j].0 {
            if sorted[i] == sorted[j] {
                // The same pair twice: its multiset count is at least 2, so
                // the input holds it twice as well, against distinct keys.
                let x = sorted[i];
                assert(sorted.remove(i).to_multiset() =~= sorted.to_multiset().remove(x));
                assert(sorted.remove(i)[j - 1] == x);
                assert(sorted.remove(i).contains(x));
                assert(sorted.remove(i).to_multiset().count(x) > 0);
                assert(sorted.to_multiset().count(x) >= 2);
                assert(cards.to_multiset().count(x) >= 2);
                assert(cards.contains(x));
                let a = choose|a: int| 0 <= a < cards.len() && cards[a] == x;
                assert(cards.remove(a).to_multiset() =~= cards.to_multiset().remove(x));
                assert(cards.remove(a).to_multiset().count(x) > 0);
                assert(cards.remove(a).contains(x));
                let b = choose|b: int| 0 <= b < cards.remove(a).len() && cards.remove(a)[b] == x;
                if b < a {
                    assert(cards[b] == x);
                } else {
                    assert(cards[b + 1] == x);
                }
            } else {
                // Two different pairs with the same key both occur in the
                // input, against distinct keys.
                let x = sorted[i];
                let y = sorted[j];
                assert(sorted.contains(x));
                assert(sorted.to_multiset().count(x) > 0);
                assert(cards.to_multiset().count(x) > 0);
                assert(cards.contains(x));
                assert(sorted.contains(y));
                assert(sorted.to_multiset().count(y) > 0);
                assert(cards.to_multiset().count(y) > 0);
                assert(cards.contains(y));
                let a = choose|a: int| 0 <= a < cards.len() && cards[a] == x;
                let b = choose|b: int| 0 <= b < cards.len() && cards[b] == y;
                assert(cards[a].0 == cards[b].0 && a != b);
            }
        }
    }
}

} // verus!
