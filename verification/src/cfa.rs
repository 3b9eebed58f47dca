//! The Bayer detector: decide from header metadata whether a single data
//! plane is a raw color-filter-array mosaic, and which pattern.
//!
//! Decision order, first match wins, case-insensitive: an explicit
//! `BAYERPAT` card, an explicit `COLORTYP` card, then an `INSTRUME` value
//! naming a color ("COLOR", "COLOUR" or "OSC") sensor, assumed `RGGB`.
//! Anything else is treated as monochrome, deliberately conservatively.

use vstd::prelude::*;
use crate::header::cards_view;
use crate::text::{
    bytes_eq, contains_bytes, spec_contains, spec_trim, spec_upper, trim_bytes, upper_bytes,
    subvec,
};

verus! {

/// A 2x2 color-filter-array tiling.
#[derive(Clone, Copy, Debug, PartialEq, Eq, Structural)]
pub enum CfaPattern {
    Rggb,
    Bggr,
    Grbg,
    Gbrg,
}

/// `BAYERPAT` as bytes.
pub open spec fn key_bayerpat() -> Seq<u8> {
    seq![66u8, 65u8, 89u8, 69u8, 82u8, 80u8, 65u8, 84u8]
}

/// `COLORTYP` as bytes.
pub open spec fn key_colortyp() -> Seq<u8> {
    seq![67u8, 79u8, 76u8, 79u8, 82u8, 84u8, 89u8, 80u8]
}

/// `INSTRUME` as bytes.
pub open spec fn key_instrume() -> Seq<u8> {
    seq![73u8, 78u8, 83u8, 84u8, 82u8, 85u8, 77u8, 69u8]
}

/// The value of the first card with key `key`, from position `i` on.
pub open spec fn spec_find_card_from(cs: Seq<(Seq<u8>, Seq<u8>)>, key: Seq<u8>, i: int) -> Option<
    Seq<u8>,
>
    decreases cs.len() - i,
{
    if i < 0 || i >= cs.len() {
        None
    } else if cs[i].0 =~= key {
        Some(cs[i].1)
    } else {
        spec_find_card_from(cs, key, i + 1)
    }
}

/// The pattern a card value names, upper-cased and trimmed.
pub open spec fn spec_cfa_of(v: Seq<u8>) -> Option<CfaPattern> {
    let u = spec_upper(spec_trim(v));
    if u =~= seq![82u8, 71u8, 71u8, 66u8] {
        Some(CfaPattern::Rggb)
    } else if u =~= seq![66u8, 71u8, 71u8, 82u8] {
        Some(CfaPattern::Bggr)
    } else if u =~= seq![71u8, 82u8, 66u8, 71u8] {
        Some(CfaPattern::Grbg)
    } else if u =~= seq![71u8, 66u8, 82u8, 71u8] {
        Some(CfaPattern::Gbrg)
    } else {
        None
    }
}

/// An instrument name that marks a one-shot-color sensor.
pub open spec fn spec_color_instrument(v: Seq<u8>) -> bool {
    let u = spec_upper(spec_trim(v));
    spec_contains(u, seq![67u8, 79u8, 76u8, 79u8, 82u8]) || spec_contains(
        u,
        seq![67u8, 79u8, 76u8, 79u8, 85u8, 82u8],
    ) || spec_contains(u, seq![79u8, 83u8, 67u8])
}

/// The detector's whole decision table over the parsed header cards.
pub open spec fn spec_detect_bayer(cs: Seq<(Seq<u8>, Seq<u8>)>) -> Option<CfaPattern> {
    let by_pat = match spec_find_card_from(cs, key_bayerpat(), 0) {
        Some(v) => spec_cfa_of(v),
        None => None,
    };
    if by_pat is Some {
        by_pat
    } else {
        let by_typ = match spec_find_card_from(cs, key_colortyp(), 0) {
            Some(v) => spec_cfa_of(v),
            None => None,
        };
        if by_typ is Some {
            by_typ
        } else {
            match spec_find_card_from(cs, key_instrume(), 0) {
                Some(v) => if spec_color_instrument(v) {
                    Some(CfaPattern::Rggb)
                } else {
                    None
                },
                None => None,
            }
        }
    }
}

/// The value of the first card with the given key.
fn find_card(cards: &Vec<(Vec<u8>, Vec<u8>)>, key: &[u8]) -> (r: Option<Vec<u8>>)
    ensures
        match r {
            Some(v) => spec_find_card_from(cards_view(cards@), key@, 0) == Some(v@),
            None => spec_find_card_from(cards_view(cards@), key@, 0) is None,
        },
{
    let n: usize = cards.len();
    let mut i: usize = 0;
    while i < n
        invariant
            i <= n == cards@.len(),
            spec_find_card_from(cards_view(cards@), key@, 0) == spec_find_card_from(
                cards_view(cards@),
                key@,
                i as int,
            ),
        decreases n - i,
    {
        if bytes_eq(cards[i].0.as_slice(), key) {
            let v = subvec(cards[i].1.as_slice(), 0, cards[i].1.len());
            proof {
                assert(v@ =~= cards_view(cards@)[i as int].1);
            }
            return Some(v);
        }
        proof {
            assert(!(cards_view(cards@)[i as int].0 =~= key@));
        }
        i += 1;
    }
    None
}

/// Match a card value against the four known patterns.
fn cfa_of(v: &[u8]) -> (r: Option<CfaPattern>)
    ensures
        r == spec_cfa_of(v@),
{
    let t = trim_bytes(v);
    let u = upper_bytes(t.as_slice());
    let rggb: Vec<u8> = vec![82u8, 71u8, 71u8, 66u8];
    let bggr: Vec<u8> = vec![66u8, 71u8, 71u8, 82u8];
    let grbg: Vec<u8> = vec![71u8, 82u8, 66u8, 71u8];
    let gbrg: Vec<u8> = vec![71u8, 66u8, 82u8, 71u8];
    if bytes_eq(u.as_slice(), rggb.as_slice()) {
        Some(CfaPattern::Rggb)
    } else if bytes_eq(u.as_slice(), bggr.as_slice()) {
        Some(CfaPattern::Bggr)
    } else if bytes_eq(u.as_slice(), grbg.as_slice()) {
        Some(CfaPattern::Grbg)
    } else if bytes_eq(u.as_slice(), gbrg.as_slice()) {
        Some(CfaPattern::Gbrg)
    } else {
        None
    }
}

/// Detect the Bayer pattern from the parsed header cards; `None` means a
/// genuine monochrome plane.
pub fn detect_bayer_pattern(cards: &Vec<(Vec<u8>, Vec<u8>)>) -> (r: Option<CfaPattern>)
    ensures
        r == spec_detect_bayer(cards_view(cards@)),
{
    let bayerpat_key: Vec<u8> = vec![66u8, 65u8, 89u8, 69u8, 82u8, 80u8, 65u8, 84u8];
    proof {
        assert(bayerpat_key@ =~= key_bayerpat());
    }
    match find_card(cards, bayerpat_key.as_slice()) {
        Some(v) => {
            match cfa_of(v.as_slice()) {
                Some(p) => {
                    return Some(p);
                },
                None => {
                },
            }
        },
        None => {
        },
    }
    let colortyp_key: Vec<u8> = vec![67u8, 79u8, 76u8, 79u8, 82u8, 84u8, 89u8, 80u8];
    proof {
        assert(colortyp_key@ =~= key_colortyp());
    }
    match find_card(cards, colortyp_key.as_slice()) {
        Some(v) => {
            match cfa_of(v.as_slice()) {
                Some(p) => {
                    return Some(p);
                },
                None => {
                },
            }
        },
        None => {
        },
    }
    let instrume_key: Vec<u8> = vec![73u8, 78u8, 83u8, 84u8, 82u8, 85u8, 77u8, 69u8];
    proof {
        assert(instrume_key@ =~= key_instrume());
    }
    match find_card(cards, instrume_key.as_slice()) {
        Some(v) => {
            let t = trim_bytes(v.as_slice());
            let u = upper_bytes(t.as_slice());
            let color: Vec<u8> = vec![67u8, 79u8, 76u8, 79u8, 82u8];
            let colour: Vec<u8> = vec![67u8, 79u8, 76u8, 79u8, 85u8, 82u8];
            let osc: Vec<u8> = vec![79u8, 83u8, 67u8];
            if contains_bytes(u.as_slice(), color.as_slice()) || contains_bytes(
                u.as_slice(),
                colour.as_slice(),
            ) || contains_bytes(u.as_slice(), osc.as_slice()) {
                Some(CfaPattern::Rggb)
            } else {
                None
            }
        },
        None => None,
    }
}

} // verus!
