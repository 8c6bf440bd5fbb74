//! Matching in one call.
use vstd::prelude::*;
use crate::matcher::ascii::PlainMatchConfig;
use crate::matcher::builder::{buildable, rules_of};
use crate::matcher::encoding::{
    decode_utf16, decode_utf32, Encoding, in_units, spec_decode_utf16, spec_decode_utf32,
};
use crate::matcher::engine::{IbMatcher, match_triple, Rules};
use crate::matcher::matches::Match;
use crate::matcher::pinyin::PinyinMatchConfig;
use crate::pinyin::data::{lemma_init_idempotent, PinyinData, spec_init};
use crate::pinyin::notation::PinyinNotation;
use crate::unicode::utf8::string_of;

verus! {

/// What the functions of this module match by: `pattern` as itself,
/// without regard to case, and as pinyin in `pinyin_notations`, with upper
/// case letters matching no pinyin; anywhere in the haystack, and without
/// a walk through the ways to read the pattern.
pub open spec fn spec_rules<'a>(
    data: &'a PinyinData,
    pattern: Seq<char>,
    pinyin_notations: PinyinNotation,
) -> Rules<'a> {
    rules_of(
        pattern,
        Some(PlainMatchConfig { case_insensitive: true }),
        Some(
            PinyinMatchConfig {
                notations: pinyin_notations,
                data,
                case_insensitive: false,
                allow_partial_pattern: true,
            },
        ),
        None,
        false,
        false,
        false,
        false,
        false,
    )
}

/// Whether a matcher for `pattern` can be built.
pub open spec fn spec_can_build(pattern: Seq<char>) -> bool {
    buildable(pattern, Some(PlainMatchConfig { case_insensitive: true }), false)
}

/// What `is_pinyin_match` yields: whether a matcher can be built and
/// finds a match.
pub open spec fn spec_is_pinyin_match(
    data: &PinyinData,
    pattern: Seq<char>,
    haystack: Seq<char>,
    pinyin_notations: PinyinNotation,
) -> bool {
    spec_can_build(pattern) && spec_rules(data, pattern, pinyin_notations).spec_is_match(
        haystack,
        false,
    )
}

/// What `find_pinyin_match` yields, in bytes: the first match, if a
/// matcher can be built.
pub open spec fn spec_find_pinyin_match(
    data: &PinyinData,
    pattern: Seq<char>,
    haystack: Seq<char>,
    pinyin_notations: PinyinNotation,
) -> Option<(int, int, bool)> {
    if spec_can_build(pattern) {
        spec_rules(data, pattern, pinyin_notations).spec_find(haystack, false)
    } else {
        None
    }
}

/// Whether `data` is `before` with the strings of `pinyin_notations` made.
pub open spec fn spec_made(
    before: PinyinData,
    data: PinyinData,
    pinyin_notations: PinyinNotation,
) -> bool {
    &&& data.wf()
    &&& data.table() == before.table()
    &&& data.inited() == spec_init(before.inited(), pinyin_notations)
}

/// The matcher that the functions of this module make for `pattern` on a
/// dictionary that holds the notations; none where it cannot be built.
pub fn matcher<'a>(
    data: &'a PinyinData,
    pattern: &str,
    pinyin_notations: PinyinNotation,
) -> (r: Option<IbMatcher<'a>>)
    requires
        data.wf(),
        data.inited().spec_contains(pinyin_notations),
    ensures
        r is Some == spec_can_build(pattern@),
        r is Some ==> r->0.wf() && r->0.rules() == spec_rules(data, pattern@, pinyin_notations),
{
    IbMatcher::builder(pattern).pinyin(PinyinMatchConfig::notations(pinyin_notations, data)).build()
}

/// Whether `haystack` holds a match of `pattern`, as itself or as pinyin
/// in `pinyin_notations`, whose strings are made first where `data` does
/// not hold them yet: what a matcher with the default options says, and
/// `false` where none can be built.
pub fn is_pinyin_match(
    data: &mut PinyinData,
    pattern: &str,
    haystack: &str,
    pinyin_notations: PinyinNotation,
) -> (r: bool)
    requires
        old(data).wf(),
    ensures
        spec_made(*old(data), *final(data), pinyin_notations),
        r == spec_is_pinyin_match(&*final(data), pattern@, haystack@, pinyin_notations),
{
    data.init_notations(pinyin_notations);
    proof {
        lemma_init_idempotent(old(data).inited(), pinyin_notations);
    }
    match matcher(&*data, pattern, pinyin_notations) {
        Some(m) => m.is_match(haystack),
        None => false,
    }
}

/// The first match of `pattern` in `haystack`, as itself or as pinyin in
/// `pinyin_notations`, whose strings are made first where `data` does not
/// hold them yet: what a matcher with the default options finds, and none
/// where no matcher can be built.
pub fn find_pinyin_match(
    data: &mut PinyinData,
    pattern: &str,
    haystack: &str,
    pinyin_notations: PinyinNotation,
) -> (r: Option<Match>)
    requires
        old(data).wf(),
    ensures
        spec_made(*old(data), *final(data), pinyin_notations),
        match_triple(r) == spec_find_pinyin_match(
            &*final(data),
            pattern@,
            haystack@,
            pinyin_notations,
        ),
{
    data.init_notations(pinyin_notations);
    proof {
        lemma_init_idempotent(old(data).inited(), pinyin_notations);
    }
    match matcher(&*data, pattern, pinyin_notations) {
        Some(m) => m.find(haystack),
        None => None,
    }
}

/// `is_pinyin_match` for a pattern and a haystack that are given as
/// characters, on a dictionary that holds the notations.
fn is_pinyin_match_chars(
    data: &PinyinData,
    pattern: &[char],
    haystack: &[char],
    pinyin_notations: PinyinNotation,
) -> (r: bool)
    requires
        data.wf(),
        data.inited().spec_contains(pinyin_notations),
    ensures
        r == spec_is_pinyin_match(data, pattern@, haystack@, pinyin_notations),
{
    let text = string_of(pattern, 0, pattern.len());
    proof {
        assert(pattern@.subrange(0, pattern@.len() as int) == pattern@);
    }
    match matcher(data, text.as_str(), pinyin_notations) {
        Some(m) => m.is_match_chars(haystack),
        None => false,
    }
}

/// `find_pinyin_match` for a pattern and a haystack that are given as
/// characters, on a dictionary that holds the notations, with the offsets
/// of the match in the units of `encoding`.
fn find_pinyin_match_chars(
    data: &PinyinData,
    pattern: &[char],
    haystack: &[char],
    pinyin_notations: PinyinNotation,
    encoding: Encoding,
) -> (r: Option<Match>)
    requires
        data.wf(),
        data.inited().spec_contains(pinyin_notations),
    ensures
        in_units(
            encoding,
            haystack@,
            r,
            spec_find_pinyin_match(data, pattern@, haystack@, pinyin_notations),
        ),
{
    let text = string_of(pattern, 0, pattern.len());
    proof {
        assert(pattern@.subrange(0, pattern@.len() as int) == pattern@);
    }
    match matcher(data, text.as_str(), pinyin_notations) {
        Some(m) => m.find_chars(haystack, encoding),
        None => None,
    }
}

/// `is_pinyin_match` for a pattern and a haystack in UTF-16.
pub fn is_pinyin_match_u16(
    data: &mut PinyinData,
    pattern: &[u16],
    haystack: &[u16],
    pinyin_notations: PinyinNotation,
) -> (r: bool)
    requires
        old(data).wf(),
    ensures
        spec_made(*old(data), *final(data), pinyin_notations),
        r == spec_is_pinyin_match(
            &*final(data),
            spec_decode_utf16(pattern@),
            spec_decode_utf16(haystack@),
            pinyin_notations,
        ),
{
    data.init_notations(pinyin_notations);
    proof {
        lemma_init_idempotent(old(data).inited(), pinyin_notations);
    }
    let pattern = decode_utf16(pattern);
    let haystack = decode_utf16(haystack);
    is_pinyin_match_chars(&*data, pattern.as_slice(), haystack.as_slice(), pinyin_notations)
}

/// `is_pinyin_match` for a pattern and a haystack in UTF-32.
pub fn is_pinyin_match_u32(
    data: &mut PinyinData,
    pattern: &[u32],
    haystack: &[u32],
    pinyin_notations: PinyinNotation,
) -> (r: bool)
    requires
        old(data).wf(),
    ensures
        spec_made(*old(data), *final(data), pinyin_notations),
        r == spec_is_pinyin_match(
            &*final(data),
            spec_decode_utf32(pattern@),
            spec_decode_utf32(haystack@),
            pinyin_notations,
        ),
{
    data.init_notations(pinyin_notations);
    proof {
        lemma_init_idempotent(old(data).inited(), pinyin_notations);
    }
    let pattern = decode_utf32(pattern);
    let haystack = decode_utf32(haystack);
    is_pinyin_match_chars(&*data, pattern.as_slice(), haystack.as_slice(), pinyin_notations)
}

/// `find_pinyin_match` for a pattern and a haystack in UTF-16, with the
/// offsets of the match in units of two bytes.
pub fn find_pinyin_match_u16(
    data: &mut PinyinData,
    pattern: &[u16],
    haystack: &[u16],
    pinyin_notations: PinyinNotation,
) -> (r: Option<Match>)
    requires
        old(data).wf(),
    ensures
        spec_made(*old(data), *final(data), pinyin_notations),
        in_units(
            Encoding::Utf16,
            spec_decode_utf16(haystack@),
            r,
            spec_find_pinyin_match(
                &*final(data),
                spec_decode_utf16(pattern@),
                spec_decode_utf16(haystack@),
                pinyin_notations,
            ),
        ),
{
    data.init_notations(pinyin_notations);
    proof {
        lemma_init_idempotent(old(data).inited(), pinyin_notations);
    }
    let pattern = decode_utf16(pattern);
    let haystack = decode_utf16(haystack);
    find_pinyin_match_chars(
        &*data,
        pattern.as_slice(),
        haystack.as_slice(),
        pinyin_notations,
        Encoding::Utf16,
    )
}

/// `find_pinyin_match` for a pattern and a haystack in UTF-32, with the
/// offsets of the match in characters.
pub fn find_pinyin_match_u32(
    data: &mut PinyinData,
    pattern: &[u32],
    haystack: &[u32],
    pinyin_notations: PinyinNotation,
) -> (r: Option<Match>)
    requires
        old(data).wf(),
    ensures
        spec_made(*old(data), *final(data), pinyin_notations),
        in_units(
            Encoding::Utf32,
            spec_decode_utf32(haystack@),
            r,
            spec_find_pinyin_match(
                &*final(data),
                spec_decode_utf32(pattern@),
                spec_decode_utf32(haystack@),
                pinyin_notations,
            ),
        ),
{
    data.init_notations(pinyin_notations);
    proof {
        lemma_init_idempotent(old(data).inited(), pinyin_notations);
    }
    let pattern = decode_utf32(pattern);
    let haystack = decode_utf32(haystack);
    find_pinyin_match_chars(
        &*data,
        pattern.as_slice(),
        haystack.as_slice(),
        pinyin_notations,
        Encoding::Utf32,
    )
}

} // verus!
