//! Matching for callers that pass numbers and strings only.
use vstd::prelude::*;
use crate::matcher::encoding::{
    Encoding, in_units, spec_decode_utf16, spec_decode_utf32, spec_until_nul, spec_until_nul_u32,
    until_nul, until_nul_u32,
};
use crate::matcher::engine::match_triple;
use crate::matcher::matches::Match;
use crate::minimal::{
    find_pinyin_match, find_pinyin_match_u16, find_pinyin_match_u32, is_pinyin_match,
    is_pinyin_match_u16, is_pinyin_match_u32, spec_find_pinyin_match, spec_is_pinyin_match,
    spec_made,
};
use crate::pinyin::data::PinyinData;
use crate::pinyin::notation::{ALL_BITS, PinyinNotation};

verus! {

/// The functions for callers that pass numbers and strings only.
#[allow(non_camel_case_types)]
pub struct ib_pinyin;

/// A match as one number: its start in the low half, its end in the
/// high half; all ones for no match.
pub open spec fn spec_match_to_u64(m: Option<Match>) -> u64 {
    match m {
        Some(m) => (m.spec_start() as u64) | ((m.spec_end() as u64) << 32),
        None => u64::MAX,
    }
}

/// The notations that the bits name; bits that name none are dropped.
pub open spec fn spec_notations(bits: u32) -> PinyinNotation {
    PinyinNotation(bits & ALL_BITS)
}

impl ib_pinyin {
    /// A match as one number: `start | (end << 32)`, and `u64::MAX` for no
    /// match.
    pub fn match_to_u64(m: Option<Match>) -> (r: u64)
        ensures
            r == spec_match_to_u64(m),
    {
        match m {
            Some(m) => (m.start() as u64) | ((m.end() as u64) << 32),
            None => u64::MAX,
        }
    }

    /// `is_pinyin_match` with the notations as bits; bits that name no
    /// notation are dropped.
    pub fn is_match_u8(
        data: &mut PinyinData,
        pattern: &str,
        haystack: &str,
        pinyin_notations: u32,
    ) -> (r: bool)
        requires
            old(data).wf(),
        ensures
            spec_made(*old(data), *final(data), spec_notations(pinyin_notations)),
            r == spec_is_pinyin_match(
                &*final(data),
                pattern@,
                haystack@,
                spec_notations(pinyin_notations),
            ),
    {
        is_pinyin_match(data, pattern, haystack,
            PinyinNotation::from_bits_truncate(pinyin_notations))
    }

    /// `find_pinyin_match` with the notations as bits and the match as one
    /// number.
    pub fn find_match_u8(
        data: &mut PinyinData,
        pattern: &str,
        haystack: &str,
        pinyin_notations: u32,
    ) -> (r: u64)
        requires
            old(data).wf(),
        ensures
            spec_made(*old(data), *final(data), spec_notations(pinyin_notations)),
            exists|found: Option<Match>|
                #[trigger] match_triple(found) == spec_find_pinyin_match(
                    &*final(data),
                    pattern@,
                    haystack@,
                    spec_notations(pinyin_notations),
                ) && r == spec_match_to_u64(found),
    {
        let found = find_pinyin_match(
            data,
            pattern,
            haystack,
            PinyinNotation::from_bits_truncate(pinyin_notations),
        );
        Self::match_to_u64(found)
    }
}

impl ib_pinyin {
    /// `is_pinyin_match_u16` with the notations as bits.
    pub fn is_match_u16(
        data: &mut PinyinData,
        pattern: &[u16],
        haystack: &[u16],
        pinyin_notations: u32,
    ) -> (r: bool)
        requires
            old(data).wf(),
        ensures
            spec_made(*old(data), *final(data), spec_notations(pinyin_notations)),
            r == spec_is_pinyin_match(
                &*final(data),
                spec_decode_utf16(pattern@),
                spec_decode_utf16(haystack@),
                spec_notations(pinyin_notations),
            ),
    {
        is_pinyin_match_u16(
            data,
            pattern,
            haystack,
            PinyinNotation::from_bits_truncate(pinyin_notations),
        )
    }

    /// `is_match_u16` for a pattern and a haystack that end before their
    /// first unit that is zero.
    pub fn is_match_u16c(
        data: &mut PinyinData,
        pattern: &[u16],
        haystack: &[u16],
        pinyin_notations: u32,
    ) -> (r: bool)
        requires
            old(data).wf(),
        ensures
            spec_made(*old(data), *final(data), spec_notations(pinyin_notations)),
            r == spec_is_pinyin_match(
                &*final(data),
                spec_decode_utf16(spec_until_nul(pattern@)),
                spec_decode_utf16(spec_until_nul(haystack@)),
                spec_notations(pinyin_notations),
            ),
    {
        Self::is_match_u16(data, until_nul(pattern), until_nul(haystack), pinyin_notations)
    }

    /// `is_pinyin_match_u32` with the notations as bits.
    pub fn is_match_u32(
        data: &mut PinyinData,
        pattern: &[u32],
        haystack: &[u32],
        pinyin_notations: u32,
    ) -> (r: bool)
        requires
            old(data).wf(),
        ensures
            spec_made(*old(data), *final(data), spec_notations(pinyin_notations)),
            r == spec_is_pinyin_match(
                &*final(data),
                spec_decode_utf32(pattern@),
                spec_decode_utf32(haystack@),
                spec_notations(pinyin_notations),
            ),
    {
        is_pinyin_match_u32(
            data,
            pattern,
            haystack,
            PinyinNotation::from_bits_truncate(pinyin_notations),
        )
    }

    /// `is_match_u32` for a pattern and a haystack that end before their
    /// first unit that is zero.
    pub fn is_match_u32c(
        data: &mut PinyinData,
        pattern: &[u32],
        haystack: &[u32],
        pinyin_notations: u32,
    ) -> (r: bool)
        requires
            old(data).wf(),
        ensures
            spec_made(*old(data), *final(data), spec_notations(pinyin_notations)),
            r == spec_is_pinyin_match(
                &*final(data),
                spec_decode_utf32(spec_until_nul_u32(pattern@)),
                spec_decode_utf32(spec_until_nul_u32(haystack@)),
                spec_notations(pinyin_notations),
            ),
    {
        Self::is_match_u32(data, until_nul_u32(pattern), until_nul_u32(haystack), pinyin_notations)
    }

    /// `find_pinyin_match_u16` with the notations as bits and the match as
    /// one number.
    pub fn find_match_u16(
        data: &mut PinyinData,
        pattern: &[u16],
        haystack: &[u16],
        pinyin_notations: u32,
    ) -> (r: u64)
        requires
            old(data).wf(),
        ensures
            spec_made(*old(data), *final(data), spec_notations(pinyin_notations)),
            exists|found: Option<Match>|
                #[trigger] in_units(
                    Encoding::Utf16,
                    spec_decode_utf16(haystack@),
                    found,
                    spec_find_pinyin_match(
                        &*final(data),
                        spec_decode_utf16(pattern@),
                        spec_decode_utf16(haystack@),
                        spec_notations(pinyin_notations),
                    ),
                ) && r == spec_match_to_u64(found),
    {
        let found = find_pinyin_match_u16(
            data,
            pattern,
            haystack,
            PinyinNotation::from_bits_truncate(pinyin_notations),
        );
        Self::match_to_u64(found)
    }

    /// `find_pinyin_match_u32` with the notations as bits and the match as
    /// one number.
    pub fn find_match_u32(
        data: &mut PinyinData,
        pattern: &[u32],
        haystack: &[u32],
        pinyin_notations: u32,
    ) -> (r: u64)
        requires
            old(data).wf(),
        ensures
            spec_made(*old(data), *final(data), spec_notations(pinyin_notations)),
            exists|found: Option<Match>|
                #[trigger] in_units(
                    Encoding::Utf32,
                    spec_decode_utf32(haystack@),
                    found,
                    spec_find_pinyin_match(
                        &*final(data),
                        spec_decode_utf32(pattern@),
                        spec_decode_utf32(haystack@),
                        spec_notations(pinyin_notations),
                    ),
                ) && r == spec_match_to_u64(found),
    {
        let found = find_pinyin_match_u32(
            data,
            pattern,
            haystack,
            PinyinNotation::from_bits_truncate(pinyin_notations),
        );
        Self::match_to_u64(found)
    }
}

} // verus!
