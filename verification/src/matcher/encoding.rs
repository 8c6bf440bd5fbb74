//! Offsets in the units of an encoding.
use vstd::prelude::*;
use crate::matcher::engine::{IbMatcher, match_triple, on_boundaries};
use crate::matcher::matches::Match;
use crate::unicode::utf8::{char_len_utf8, len_utf8, string_of, utf8_len};

verus! {

/// The encoding of a haystack, which gives offsets their unit.
#[derive(Clone, Copy, Debug, PartialEq, Eq, Structural)]
pub enum Encoding {
    /// Offsets count bytes.
    Utf8,
    /// Offsets count units of two bytes.
    Utf16,
    /// Offsets count characters.
    Utf32,
}

impl Encoding {
    /// The bytes of one unit.
    pub fn element_len_byte(&self) -> (r: usize)
        ensures
            r == match self {
                Encoding::Utf8 => 1usize,
                Encoding::Utf16 => 2usize,
                Encoding::Utf32 => 4usize,
            },
    {
        match self {
            Encoding::Utf8 => 1,
            Encoding::Utf16 => 2,
            Encoding::Utf32 => 4,
        }
    }

    /// The units that `c` takes.
    pub open spec fn spec_char_len(&self, c: char) -> nat {
        match self {
            Encoding::Utf8 => char_len_utf8(c),
            Encoding::Utf16 => if (c as u32) < 0x10000 {
                1
            } else {
                2
            },
            Encoding::Utf32 => 1,
        }
    }

    /// The units that `s` takes.
    pub open spec fn spec_len(&self, s: Seq<char>) -> nat
        decreases s.len(),
    {
        if s.len() == 0 {
            0
        } else {
            self.spec_len(s.drop_last()) + self.spec_char_len(s.last())
        }
    }

    /// The units that `c` takes.
    pub fn char_len(&self, c: char) -> (r: usize)
        ensures
            r == self.spec_char_len(c),
            1 <= r <= 4,
    {
        match self {
            Encoding::Utf8 => len_utf8(c),
            Encoding::Utf16 => if (c as u32) < 0x10000 {
                1
            } else {
                2
            },
            Encoding::Utf32 => 1,
        }
    }

    /// The offset in units of the place in `haystack` that is `offset`
    /// bytes from its start in UTF-8; `None` where no character starts
    /// there and the haystack does not end there.
    pub fn offset_of(&self, haystack: &[char], offset: usize) -> (r: Option<usize>)
        ensures
            match r {
                Some(units) => exists|i: int|
                    0 <= i <= haystack@.len() && offset == utf8_len(#[trigger] haystack@.take(i))
                        && units == self.spec_len(haystack@.take(i)),
                None => forall|i: int|
                    0 <= i <= haystack@.len() ==> offset != utf8_len(#[trigger] haystack@.take(i)),
            },
    {
        let mut i: usize = 0;
        let mut bytes: usize = 0;
        let mut units: usize = 0;
        proof {
            assert(haystack@.take(0) == Seq::<char>::empty());
        }
        while i < haystack.len() && bytes < offset
            invariant
                i <= haystack.len(),
                bytes == utf8_len(haystack@.take(i as int)),
                units == self.spec_len(haystack@.take(i as int)),
                units <= bytes <= offset,
                forall|j: int| 0 <= j < i ==> utf8_len(#[trigger] haystack@.take(j)) < offset,
            decreases haystack.len() - i,
        {
            let len = len_utf8(haystack[i]);
            proof {
                let next = haystack@.take(i + 1);
                assert(next.drop_last() == haystack@.take(i as int));
                assert(next.last() == haystack@[i as int]);
                assert(next == haystack@.take(i as int).push(haystack@[i as int]));
                crate::unicode::utf8::lemma_utf8_len_push(
                    haystack@.take(i as int),
                    haystack@[i as int],
                );
            }
            if len > offset - bytes {
                proof {
                    assert forall|j: int| 0 <= j <= haystack@.len() implies offset != utf8_len(
                        #[trigger] haystack@.take(j),
                    ) by {
                        if j > i {
                            crate::unicode::utf8::lemma_utf8_len_monotonic(haystack@, i + 1, j);
                            assert(haystack@.subrange(0, j) == haystack@.take(j));
                            assert(haystack@.subrange(0, i + 1) == haystack@.take(i + 1));
                        }
                    }
                }
                return None;
            }
            bytes = bytes + len;
            units = units + self.char_len(haystack[i]);
            i = i + 1;
        }
        if bytes == offset {
            Some(units)
        } else {
            proof {
                assert forall|j: int| 0 <= j <= haystack@.len() implies offset != utf8_len(
                    #[trigger] haystack@.take(j),
                ) by {
                }
            }
            None
        }
    }

    /// A longer start of a haystack takes no fewer units.
    pub proof fn lemma_len_monotonic(&self, s: Seq<char>, i: int, j: int)
        requires
            0 <= i <= j <= s.len(),
        ensures
            self.spec_len(s.take(i)) <= self.spec_len(s.take(j)),
        decreases j - i,
    {
        if i < j {
            self.lemma_len_monotonic(s, i, j - 1);
            assert(s.take(j).drop_last() == s.take(j - 1));
        }
    }

    /// A match in the haystack with its offsets in units in place of
    /// bytes; `None` where the match does not start and end where
    /// characters do.
    pub fn convert(&self, haystack: &[char], m: Match) -> (r: Option<Match>)
        ensures
            r is None ==> (forall|i: int|
                0 <= i <= haystack@.len() ==> m.spec_start() != utf8_len(
                    #[trigger] haystack@.take(i),
                )) || (forall|i: int|
                0 <= i <= haystack@.len() ==> m.spec_end() != utf8_len(
                    #[trigger] haystack@.take(i),
                )),
            r is Some ==> r->0.spec_is_pattern_partial() == m.spec_is_pattern_partial() && exists|
                i: int,
                j: int,
            |
                {
                    &&& 0 <= i <= j <= haystack@.len()
                    &&& m.spec_start() == utf8_len(#[trigger] haystack@.take(i))
                    &&& m.spec_end() == utf8_len(#[trigger] haystack@.take(j))
                    &&& r->0.spec_start() == self.spec_len(haystack@.take(i))
                    &&& r->0.spec_end() == self.spec_len(haystack@.take(j))
                },
    {
        let start_bytes = m.start();
        match self.offset_of(haystack, start_bytes) {
            Some(start) => match self.offset_of(haystack, m.end()) {
                Some(end) => {
                    proof {
                        let i = choose|i: int|
                            0 <= i <= haystack@.len() && m.spec_start() == utf8_len(
                                #[trigger] haystack@.take(i),
                            ) && start == self.spec_len(haystack@.take(i));
                        let j = choose|j: int|
                            0 <= j <= haystack@.len() && m.spec_end() == utf8_len(
                                #[trigger] haystack@.take(j),
                            ) && end == self.spec_len(haystack@.take(j));
                        if j < i {
                            crate::unicode::utf8::lemma_utf8_len_monotonic(haystack@, j, i);
                            assert(haystack@.subrange(0, j) == haystack@.take(j));
                            assert(haystack@.subrange(0, i) == haystack@.take(i));
                        } else {
                            self.lemma_len_monotonic(haystack@, i, j);
                        }
                        assert(start <= end);
                    }
                    if start <= end {
                        proof {
                            let i = choose|i: int|
                                0 <= i <= haystack@.len() && m.spec_start() == utf8_len(
                                    #[trigger] haystack@.take(i),
                                ) && start == self.spec_len(haystack@.take(i));
                            let j = choose|j: int|
                                0 <= j <= haystack@.len() && m.spec_end() == utf8_len(
                                    #[trigger] haystack@.take(j),
                                ) && end == self.spec_len(haystack@.take(j));
                            if j < i {
                                crate::unicode::utf8::lemma_utf8_len_monotonic(haystack@, j, i);
                                assert(haystack@.subrange(0, j) == haystack@.take(j));
                                assert(haystack@.subrange(0, i) == haystack@.take(i));
                                assert(i == j);
                            }
                        }
                        Some(Match::new(start, end, m.is_pattern_partial()))
                    } else {
                        None
                    }
                },
                None => None,
            },
            None => None,
        }
    }
}

/// A string in UTF-8, or units of UTF-16 or of UTF-32, as far as
/// searching needs to know them.
pub trait EncodedStr {
    /// Whether every character is ASCII.
    fn is_ascii(&self) -> bool;

    /// The number of characters.
    fn chars_count(&self) -> usize;
}

impl EncodedStr for str {
    fn is_ascii(&self) -> (r: bool)
        ensures
            r == vstd::utf8::is_ascii_chars(self@),
    {
        str::is_ascii(self)
    }

    fn chars_count(&self) -> (r: usize)
        ensures
            r == self@.len(),
    {
        self.unicode_len()
    }
}

/// U+FFFD, which stands for what is not well formed.
pub const REPLACEMENT_CHARACTER: char = '\u{FFFD}';

/// Whether a unit of UTF-16 is the first of a pair.
pub open spec fn is_high_surrogate(unit: u16) -> bool {
    0xD800 <= unit <= 0xDBFF
}

/// Whether a unit of UTF-16 is the second of a pair.
pub open spec fn is_low_surrogate(unit: u16) -> bool {
    0xDC00 <= unit <= 0xDFFF
}

/// The character that a pair of units of UTF-16 stands for.
pub open spec fn spec_pair(high: u16, low: u16) -> char {
    ((0x10000 + (high - 0xD800) * 0x400 + (low - 0xDC00)) as u32) as char
}

/// The characters of a string in UTF-16: a unit that is not of a pair
/// stands for itself, a pair for its character, and half a pair for
/// U+FFFD.
pub open spec fn spec_decode_utf16(units: Seq<u16>) -> Seq<char>
    decreases units.len(),
{
    if units.len() == 0 {
        Seq::empty()
    } else if !is_high_surrogate(units[0]) && !is_low_surrogate(units[0]) {
        seq![(units[0] as u32) as char] + spec_decode_utf16(units.skip(1))
    } else if is_high_surrogate(units[0]) && units.len() > 1 && is_low_surrogate(units[1]) {
        seq![spec_pair(units[0], units[1])] + spec_decode_utf16(units.skip(2))
    } else {
        seq![REPLACEMENT_CHARACTER] + spec_decode_utf16(units.skip(1))
    }
}

/// The characters of a string in UTF-32: a unit that is a character stands
/// for itself, any other for U+FFFD.
pub open spec fn spec_decode_utf32(units: Seq<u32>) -> Seq<char> {
    Seq::new(
        units.len(),
        |i: int|
            if vstd::utf8::is_scalar(units[i]) {
                units[i] as char
            } else {
                REPLACEMENT_CHARACTER
            },
    )
}

/// `widestring::U16Str::chars_lossy`, collected: the characters of the
/// units as UTF-16, with U+FFFD for every surrogate that is not paired.
#[verifier::external_body]
fn chars_lossy_utf16(units: &[u16]) -> (r: Vec<char>)
    ensures
        r@ == spec_decode_utf16(units@),
{
    widestring::U16Str::from_slice(units).chars_lossy().collect()
}

/// `widestring::U32Str::chars_lossy`, collected: the characters of the
/// units as UTF-32, with U+FFFD for every unit that is no character.
#[verifier::external_body]
fn chars_lossy_utf32(units: &[u32]) -> (r: Vec<char>)
    ensures
        r@ == spec_decode_utf32(units@),
{
    widestring::U32Str::from_slice(units).chars_lossy().collect()
}

/// The characters of a string in UTF-16, with U+FFFD for half a pair.
pub fn decode_utf16(units: &[u16]) -> (r: Vec<char>)
    ensures
        r@ == spec_decode_utf16(units@),
{
    chars_lossy_utf16(units)
}

/// The characters of a string in UTF-32, with U+FFFD for every unit that
/// is no character.
pub fn decode_utf32(units: &[u32]) -> (r: Vec<char>)
    ensures
        r@ == spec_decode_utf32(units@),
{
    chars_lossy_utf32(units)
}

/// The units before the first that is zero; all of them where none is.
pub open spec fn spec_until_nul(units: Seq<u16>) -> Seq<u16>
    decreases units.len(),
{
    if units.len() == 0 || units[0] == 0 {
        Seq::empty()
    } else {
        seq![units[0]] + spec_until_nul(units.skip(1))
    }
}

/// The units before the first that is zero; all of them where none is.
pub fn until_nul(units: &[u16]) -> (r: &[u16])
    ensures
        r@ == spec_until_nul(units@),
{
    let mut n: usize = 0;
    proof {
        assert(units@.skip(0) == units@);
        assert(units@.take(0) + spec_until_nul(units@) == spec_until_nul(units@));
    }
    while n < units.len() && units[n] != 0
        invariant
            n <= units.len(),
            spec_until_nul(units@) == units@.take(n as int) + spec_until_nul(units@.skip(n as int)),
        decreases units.len() - n,
    {
        proof {
            let rest = units@.skip(n as int);
            assert(rest[0] == units@[n as int]);
            assert(rest.skip(1) == units@.skip(n + 1));
            assert(units@.take(n as int) + (seq![units@[n as int]] + spec_until_nul(
                units@.skip(n + 1),
            )) == units@.take(n + 1) + spec_until_nul(units@.skip(n + 1)));
        }
        n = n + 1;
    }
    proof {
        let rest = units@.skip(n as int);
        if n < units.len() {
            assert(rest[0] == units@[n as int]);
        }
        assert(units@.take(n as int) + Seq::<u16>::empty() == units@.take(n as int));
        assert(units@.subrange(0, n as int) == units@.take(n as int));
    }
    vstd::slice::slice_subrange(units, 0, n)
}

/// The units before the first that is zero; all of them where none is.
pub open spec fn spec_until_nul_u32(units: Seq<u32>) -> Seq<u32>
    decreases units.len(),
{
    if units.len() == 0 || units[0] == 0 {
        Seq::empty()
    } else {
        seq![units[0]] + spec_until_nul_u32(units.skip(1))
    }
}

/// The units before the first that is zero; all of them where none is.
pub fn until_nul_u32(units: &[u32]) -> (r: &[u32])
    ensures
        r@ == spec_until_nul_u32(units@),
{
    let mut n: usize = 0;
    proof {
        assert(units@.skip(0) == units@);
        assert(units@.take(0) + spec_until_nul_u32(units@) == spec_until_nul_u32(units@));
    }
    while n < units.len() && units[n] != 0
        invariant
            n <= units.len(),
            spec_until_nul_u32(units@) == units@.take(n as int) + spec_until_nul_u32(
                units@.skip(n as int),
            ),
        decreases units.len() - n,
    {
        proof {
            let rest = units@.skip(n as int);
            assert(rest[0] == units@[n as int]);
            assert(rest.skip(1) == units@.skip(n + 1));
            assert(units@.take(n as int) + (seq![units@[n as int]] + spec_until_nul_u32(
                units@.skip(n + 1),
            )) == units@.take(n + 1) + spec_until_nul_u32(units@.skip(n + 1)));
        }
        n = n + 1;
    }
    proof {
        let rest = units@.skip(n as int);
        if n < units.len() {
            assert(rest[0] == units@[n as int]);
        }
        assert(units@.take(n as int) + Seq::<u32>::empty() == units@.take(n as int));
        assert(units@.subrange(0, n as int) == units@.take(n as int));
    }
    vstd::slice::slice_subrange(units, 0, n)
}

/// Whether `found` is `expected`, a match in bytes, with its offsets in
/// the units of `encoding`.
pub open spec fn in_units(
    encoding: Encoding,
    haystack: Seq<char>,
    found: Option<Match>,
    expected: Option<(int, int, bool)>,
) -> bool {
    match expected {
        Some((start, end, partial)) => found is Some
            && found->0.spec_is_pattern_partial() == partial
            && exists|i: int, j: int|
            {
                &&& 0 <= i <= j <= haystack.len()
                &&& start == utf8_len(#[trigger] haystack.take(i))
                &&& end == utf8_len(#[trigger] haystack.take(j))
                &&& found->0.spec_start() == encoding.spec_len(haystack.take(i))
                &&& found->0.spec_end() == encoding.spec_len(haystack.take(j))
            },
        None => found is None,
    }
}

impl<'a> IbMatcher<'a> {
    /// The first match of the pattern in a haystack that is given as
    /// characters, with its offsets in the units of `encoding`.
    pub fn find_chars(&self, haystack: &[char], encoding: Encoding) -> (r: Option<Match>)
        requires
            self.wf(),
        ensures
            in_units(encoding, haystack@, r, self.spec_find(haystack@, false)),
    {
        let text = string_of(haystack, 0, haystack.len());
        proof {
            assert(haystack@.subrange(0, haystack@.len() as int) == haystack@);
        }
        match self.find(text.as_str()) {
            Some(m) => encoding.convert(haystack, m),
            None => None,
        }
    }

    /// The match of the pattern at the start of a haystack that is given
    /// as characters, with its offsets in the units of `encoding`.
    pub fn test_chars(&self, haystack: &[char], encoding: Encoding) -> (r: Option<Match>)
        requires
            self.wf(),
        ensures
            in_units(encoding, haystack@, r, self.spec_test(haystack@, false)),
    {
        let text = string_of(haystack, 0, haystack.len());
        proof {
            assert(haystack@.subrange(0, haystack@.len() as int) == haystack@);
        }
        match self.test(text.as_str()) {
            Some(m) => encoding.convert(haystack, m),
            None => None,
        }
    }

    /// Whether there is a match of the pattern in a haystack that is given
    /// as characters.
    pub fn is_match_chars(&self, haystack: &[char]) -> (r: bool)
        requires
            self.wf(),
        ensures
            r == self.spec_is_match(haystack@, false),
    {
        let text = string_of(haystack, 0, haystack.len());
        proof {
            assert(haystack@.subrange(0, haystack@.len() as int) == haystack@);
        }
        self.is_match(text.as_str())
    }

    /// The first match in a haystack in UTF-16, with its offsets in units
    /// of two bytes. Units that are not well formed read as U+FFFD.
    pub fn find_u16(&self, haystack: &[u16]) -> (r: Option<Match>)
        requires
            self.wf(),
        ensures
            in_units(
                Encoding::Utf16,
                spec_decode_utf16(haystack@),
                r,
                self.spec_find(spec_decode_utf16(haystack@), false),
            ),
    {
        let chars = chars_lossy_utf16(haystack);
        self.find_chars(chars.as_slice(), Encoding::Utf16)
    }

    /// The match at the start of a haystack in UTF-16.
    pub fn test_u16(&self, haystack: &[u16]) -> (r: Option<Match>)
        requires
            self.wf(),
        ensures
            in_units(
                Encoding::Utf16,
                spec_decode_utf16(haystack@),
                r,
                self.spec_test(spec_decode_utf16(haystack@), false),
            ),
    {
        let chars = chars_lossy_utf16(haystack);
        self.test_chars(chars.as_slice(), Encoding::Utf16)
    }

    /// Whether there is a match in a haystack in UTF-16.
    pub fn is_match_u16(&self, haystack: &[u16]) -> (r: bool)
        requires
            self.wf(),
        ensures
            r == self.spec_is_match(spec_decode_utf16(haystack@), false),
    {
        let chars = chars_lossy_utf16(haystack);
        self.is_match_chars(chars.as_slice())
    }

    /// The first match in a haystack in UTF-32, with its offsets in
    /// characters. Units that are no characters read as U+FFFD.
    pub fn find_u32(&self, haystack: &[u32]) -> (r: Option<Match>)
        requires
            self.wf(),
        ensures
            in_units(
                Encoding::Utf32,
                spec_decode_utf32(haystack@),
                r,
                self.spec_find(spec_decode_utf32(haystack@), false),
            ),
    {
        let chars = chars_lossy_utf32(haystack);
        self.find_chars(chars.as_slice(), Encoding::Utf32)
    }

    /// The match at the start of a haystack in UTF-32.
    pub fn test_u32(&self, haystack: &[u32]) -> (r: Option<Match>)
        requires
            self.wf(),
        ensures
            in_units(
                Encoding::Utf32,
                spec_decode_utf32(haystack@),
                r,
                self.spec_test(spec_decode_utf32(haystack@), false),
            ),
    {
        let chars = chars_lossy_utf32(haystack);
        self.test_chars(chars.as_slice(), Encoding::Utf32)
    }

    /// Whether there is a match in a haystack in UTF-32.
    pub fn is_match_u32(&self, haystack: &[u32]) -> (r: bool)
        requires
            self.wf(),
        ensures
            r == self.spec_is_match(spec_decode_utf32(haystack@), false),
    {
        let chars = chars_lossy_utf32(haystack);
        self.is_match_chars(chars.as_slice())
    }
}

impl EncodedStr for [u16] {
    fn is_ascii(&self) -> (r: bool)
        ensures
            r == forall|i: int| 0 <= i < self@.len() ==> (#[trigger] self@[i]) < 128,
    {
        let mut i: usize = 0;
        while i < self.len()
            invariant
                i <= self.len(),
                forall|j: int| 0 <= j < i ==> (#[trigger] self@[j]) < 128,
            decreases self.len() - i,
        {
            if self[i] >= 128 {
                return false;
            }
            i = i + 1;
        }
        true
    }

    fn chars_count(&self) -> (r: usize)
        ensures
            r == spec_decode_utf16(self@).len(),
    {
        chars_lossy_utf16(self).len()
    }
}

impl EncodedStr for [u32] {
    fn is_ascii(&self) -> (r: bool)
        ensures
            r == forall|i: int| 0 <= i < self@.len() ==> (#[trigger] self@[i]) < 128,
    {
        let mut i: usize = 0;
        while i < self.len()
            invariant
                i <= self.len(),
                forall|j: int| 0 <= j < i ==> (#[trigger] self@[j]) < 128,
            decreases self.len() - i,
        {
            if self[i] >= 128 {
                return false;
            }
            i = i + 1;
        }
        true
    }

    fn chars_count(&self) -> (r: usize)
        ensures
            r == self@.len(),
    {
        self.len()
    }
}

} // verus!
