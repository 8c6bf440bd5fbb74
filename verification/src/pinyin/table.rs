//! The tables that give each character its pinyin.
use vstd::prelude::*;
use vstd::utf8::is_ascii_chars;
use crate::pinyin::encode::{spec_ascii_map, spec_unicode_to_ascii, spec_unicode_tone, tone_digit};
use crate::pinyin::notation::{
    ASCII, ASCII_FIRST_LETTER, ASCII_TONE, DILETTER_ABC, DILETTER_JIAJIA, DILETTER_MICROSOFT,
    DILETTER_THUNISOFT, DILETTER_XIAOHE, DILETTER_ZRM, PinyinNotation, UNICODE,
};
use crate::unicode::case::mono_lowercase_seq;
use crate::unicode::utf8::{lemma_utf8_len_ascii, utf8_len};

verus! {

/// The first code point that can have a pinyin.
pub const MAX_RANGE_START: u32 = 0x3007;

/// The last code point that can have a pinyin.
pub const MAX_RANGE_END: u32 = 0x30EDE;

/// The entry of a range table that stands for "no pinyin", and the end of
/// a row of combinations.
pub const NO_PINYIN: u16 = 0xFFFF;

/// The code points `start..=end`, each with an index in `table`: of a
/// pinyin, of a combination of pinyins, or `NO_PINYIN`.
pub struct PinyinRangeTable {
    pub start: u32,
    pub end: u32,
    pub table: Vec<u16>,
}

impl PinyinRangeTable {
    pub fn new(start: u32, end: u32, table: Vec<u16>) -> (r: PinyinRangeTable)
        ensures
            r.start == start,
            r.end == end,
            r.table == table,
    {
        PinyinRangeTable { start, end, table }
    }

    /// The table has one entry for each code point of the range.
    pub open spec fn wf(&self) -> bool {
        self.start <= self.end && self.table@.len() == self.end - self.start + 1
    }

    /// Whether the range holds the code point `c`.
    pub open spec fn spec_contains(&self, c: u32) -> bool {
        self.start <= c <= self.end
    }
}

/// The tables of a pinyin dictionary.
///
/// An index below the number of pinyins names one pinyin. A larger one,
/// less that number, names a row of `combinations`: the pinyins of a
/// character that has several, up to the first `NO_PINYIN` of the row.
pub struct PinyinTable {
    /// Each pinyin in the Unicode notation.
    pub pinyins: Vec<String>,
    pub ranges: Vec<PinyinRangeTable>,
    pub combinations: Vec<Vec<u16>>,
}

/// The six double-letter notations.
pub open spec fn diletter_notations() -> Seq<PinyinNotation> {
    seq![
        PinyinNotation(DILETTER_ABC),
        PinyinNotation(DILETTER_JIAJIA),
        PinyinNotation(DILETTER_MICROSOFT),
        PinyinNotation(DILETTER_THUNISOFT),
        PinyinNotation(DILETTER_XIAOHE),
        PinyinNotation(DILETTER_ZRM),
    ]
}

/// Whether a full pinyin has a form of two ASCII characters, none of them
/// an upper-case letter, in the double-letter scheme `notation`.
pub open spec fn valid_diletter(notation: PinyinNotation, ascii: Seq<char>) -> bool {
    match spec_ascii_map(notation, ascii) {
        Some(d) => d.len() == 2 && is_ascii_chars(d) && mono_lowercase_seq(d) == d,
        None => false,
    }
}

/// Whether a string is a pinyin in the Unicode notation of which every
/// other notation can be made: it takes no more than seven bytes, it is
/// in lower case, its full form has one to six letters, and it has a form
/// in each of the double-letter schemes.
pub open spec fn valid_pinyin(unicode: Seq<char>) -> bool {
    &&& utf8_len(unicode) <= 7
    &&& mono_lowercase_seq(unicode) == unicode
    &&& match spec_unicode_to_ascii(unicode) {
        Some(ascii) => {
            &&& 1 <= ascii.len() <= 6
            &&& forall|k: int|
                0 <= k < 6 ==> valid_diletter(#[trigger] diletter_notations()[k], ascii)
        },
        None => false,
    }
}

/// The part of a row of combinations that comes before its end mark.
pub open spec fn spec_row(row: Seq<u16>) -> Seq<u16>
    decreases row.len(),
{
    if row.len() == 0 || row[0] == NO_PINYIN {
        Seq::empty()
    } else {
        seq![row[0]] + spec_row(row.skip(1))
    }
}

/// What `spec_row` yields is the start of the row up to its first end
/// mark.
pub proof fn lemma_row_is_prefix(row: Seq<u16>)
    ensures
        spec_row(row).len() <= row.len(),
        forall|k: int| 0 <= k < spec_row(row).len() ==> spec_row(row)[k] == row[k] && row[k] !=
            NO_PINYIN,
        spec_row(row).len() < row.len() ==> row[spec_row(row).len() as int] == NO_PINYIN,
    decreases row.len(),
{
    if row.len() == 0 || row[0] == NO_PINYIN {
    } else {
        lemma_row_is_prefix(row.skip(1));
        assert forall|k: int| 0 <= k < spec_row(row).len() implies spec_row(row)[k] == row[k]
            && row[k] != NO_PINYIN by {
            if k > 0 {
                assert(spec_row(row.skip(1))[k - 1] == row.skip(1)[k - 1]);
            }
        }
        if spec_row(row).len() < row.len() {
            assert(row.skip(1)[spec_row(row.skip(1)).len() as int] == NO_PINYIN);
        }
    }
}

impl PinyinTable {
    pub fn new(
        pinyins: Vec<String>,
        ranges: Vec<PinyinRangeTable>,
        combinations: Vec<Vec<u16>>,
    ) -> (r: PinyinTable)
        ensures
            r.pinyins == pinyins,
            r.ranges == ranges,
            r.combinations == combinations,
    {
        PinyinTable { pinyins, ranges, combinations }
    }

    /// The number of pinyins.
    pub open spec fn count(&self) -> nat {
        self.pinyins@.len()
    }

    /// The pinyin of the given index in the Unicode notation.
    pub open spec fn unicode(&self, index: int) -> Seq<char> {
        self.pinyins@[index]@
    }

    /// Whether an entry of a range table names nothing, one pinyin, or a
    /// row of combinations.
    pub open spec fn valid_entry(&self, entry: u16) -> bool {
        entry == NO_PINYIN || entry < self.count() || entry - self.count()
            < self.combinations@.len()
    }

    /// Whether a row of combinations names pinyins only.
    pub open spec fn valid_row(&self, row: Seq<u16>) -> bool {
        forall|k: int| 0 <= k < spec_row(row).len() ==> (#[trigger] spec_row(row)[k]) < self.count()
    }

    /// The tables fit together: every pinyin is valid, every range table
    /// has the length of its range and holds valid entries, and every row
    /// of combinations names pinyins.
    pub open spec fn wf(&self) -> bool {
        &&& self.count() < NO_PINYIN
        &&& forall|i: int| 0 <= i < self.count() ==> valid_pinyin(#[trigger] self.unicode(i))
        &&& forall|r: int|
            0 <= r < self.ranges@.len() ==> {
                &&& (#[trigger] self.ranges@[r]).wf()
                &&& forall|k: int|
                    0 <= k < self.ranges@[r].table@.len() ==> self.valid_entry(
                        #[trigger] self.ranges@[r].table@[k],
                    )
            }
        &&& forall|j: int|
            0 <= j < self.combinations@.len() ==> self.valid_row(#[trigger] self.combinations@[j]@)
    }

    /// The index that the first of `ranges[from..]` that holds `c` gives it.
    pub open spec fn spec_index_from(&self, c: u32, from: int) -> Option<u16>
        decreases self.ranges@.len() - from,
    {
        if from < 0 || from >= self.ranges@.len() {
            None
        } else if self.ranges@[from].spec_contains(c) {
            let entry = self.ranges@[from].table@[c - self.ranges@[from].start];
            if entry == NO_PINYIN {
                None
            } else {
                Some(entry)
            }
        } else {
            self.spec_index_from(c, from + 1)
        }
    }

    /// The index of the pinyin, or of the combination of pinyins, of `c`:
    /// none outside `MAX_RANGE_START..=MAX_RANGE_END`; inside, what the
    /// first range table that holds `c` says.
    pub open spec fn spec_index(&self, c: char) -> Option<u16> {
        if MAX_RANGE_START <= c as u32 <= MAX_RANGE_END {
            self.spec_index_from(c as u32, 0)
        } else {
            None
        }
    }

    /// The indices of the pinyins of `c`, in the order of the table.
    pub open spec fn spec_readings(&self, c: char) -> Seq<u16> {
        match self.spec_index(c) {
            None => Seq::empty(),
            Some(i) => if i < self.count() {
                seq![i]
            } else {
                spec_row(self.combinations@[i - self.count()]@)
            },
        }
    }

    /// An index that a range table gives is not the mark for "no pinyin", and
    /// names a pinyin or a row of combinations.
    pub proof fn lemma_index_valid(&self, c: u32, from: int)
        requires
            self.wf(),
            0 <= from,
        ensures
            match self.spec_index_from(c, from) {
                Some(i) => i != NO_PINYIN && self.valid_entry(i),
                None => true,
            },
        decreases self.ranges@.len() - from,
    {
        if from < self.ranges@.len() {
            if self.ranges@[from].spec_contains(c) {
                assert(self.ranges@[from].wf());
                assert(self.valid_entry(self.ranges@[from].table@[c - self.ranges@[from].start]));
            } else {
                self.lemma_index_valid(c, from + 1);
            }
        }
    }

    /// Every reading of a character is the index of a pinyin.
    pub proof fn lemma_readings_valid(&self, c: char)
        requires
            self.wf(),
        ensures
            forall|k: int|
                0 <= k < self.spec_readings(c).len() ==> (#[trigger] self.spec_readings(c)[k])
                    < self.count(),
    {
        if MAX_RANGE_START <= c as u32 <= MAX_RANGE_END {
            self.lemma_index_valid(c as u32, 0);
        }
        match self.spec_index(c) {
            None => {},
            Some(i) => {
                if i >= self.count() {
                    assert(self.valid_row(self.combinations@[i - self.count()]@));
                }
            },
        }
    }

    /// A character outside `MAX_RANGE_START..=MAX_RANGE_END` has no pinyin.
    pub proof fn lemma_no_readings_outside_range(&self, c: char)
        requires
            !(MAX_RANGE_START <= c as u32 <= MAX_RANGE_END),
        ensures
            self.spec_index(c) is None,
            self.spec_readings(c) == Seq::<u16>::empty(),
    {
    }

    /// The index of the pinyin, or of the combination of pinyins, of `c`.
    pub fn get_pinyin_index(&self, c: char) -> (r: Option<u16>)
        requires
            self.wf(),
        ensures
            r == self.spec_index(c),
            !(MAX_RANGE_START <= c as u32 <= MAX_RANGE_END) ==> r is None,
            r is Some ==> r->0 != NO_PINYIN && self.valid_entry(r->0),
            r is Some ==> self.spec_readings(c) == self.spec_readings_of(r->0),
            r is None ==> self.spec_readings(c) == Seq::<u16>::empty(),
    {
        proof {
            self.lemma_index_valid(c as u32, 0);
        }
        let cp: u32 = c as u32;
        if MAX_RANGE_START <= cp && cp <= MAX_RANGE_END {
            let mut i: usize = 0;
            while i < self.ranges.len()
                invariant
                    self.wf(),
                    cp == c as u32,
                    MAX_RANGE_START <= cp <= MAX_RANGE_END,
                    i <= self.ranges.len(),
                    self.spec_index_from(cp, 0) == self.spec_index_from(cp, i as int),
                decreases self.ranges.len() - i,
            {
                let range = &self.ranges[i];
                assert(self.ranges@[i as int].wf());
                if range.start <= cp && cp <= range.end {
                    let entry = range.table[(cp - range.start) as usize];
                    if entry == NO_PINYIN {
                        return None;
                    } else {
                        return Some(entry);
                    }
                }
                i = i + 1;
            }
            None
        } else {
            None
        }
    }

    /// The number of pinyins that the index of a character stands for:
    /// one, or the length of its row of combinations.
    pub fn reading_count(&self, index: u16) -> (r: usize)
        requires
            self.wf(),
            index != NO_PINYIN,
            self.valid_entry(index),
        ensures
            r == self.spec_readings_of(index).len(),
    {
        if (index as usize) < self.pinyins.len() {
            1
        } else {
            let row = &self.combinations[index as usize - self.pinyins.len()];
            let mut n: usize = 0;
            proof {
                lemma_row_is_prefix(row@);
            }
            while n < row.len() && row[n] != NO_PINYIN
                invariant
                    n <= row.len(),
                    n <= spec_row(row@).len() <= row@.len(),
                    forall|k: int|
                        0 <= k < spec_row(row@).len() ==> spec_row(row@)[k] == row@[k] && row@[k]
                            != NO_PINYIN,
                    spec_row(row@).len() < row@.len() ==> row@[spec_row(row@).len() as int]
                        == NO_PINYIN,
                decreases row.len() - n,
            {
                n = n + 1;
            }
            n
        }
    }

    /// The pinyins that an index of a character stands for.
    pub open spec fn spec_readings_of(&self, index: u16) -> Seq<u16> {
        if index < self.count() {
            seq![index]
        } else {
            spec_row(self.combinations@[index - self.count()]@)
        }
    }

    /// The `k`-th of the pinyins that the index of a character stands for.
    pub fn reading_at(&self, index: u16, k: usize) -> (r: u16)
        requires
            self.wf(),
            index != NO_PINYIN,
            self.valid_entry(index),
            k < self.spec_readings_of(index).len(),
        ensures
            r == self.spec_readings_of(index)[k as int],
            r < self.count(),
    {
        if (index as usize) < self.pinyins.len() {
            index
        } else {
            let row = &self.combinations[index as usize - self.pinyins.len()];
            proof {
                lemma_row_is_prefix(row@);
                assert(self.valid_row(row@));
            }
            row[k]
        }
    }
}

/// The letters of a full pinyin are `a..z`.
pub proof fn lemma_ascii_is_lower(unicode: Seq<char>)
    ensures
        match spec_unicode_to_ascii(unicode) {
            Some(a) => forall|k: int| 0 <= k < a.len() ==> 'a' <= #[trigger] a[k] <= 'z',
            None => true,
        },
    decreases unicode.len(),
{
    if unicode.len() > 0 {
        lemma_ascii_is_lower(unicode.skip(1));
        if unicode.len() > 1 {
            lemma_ascii_is_lower(unicode.skip(2));
        }
    }
}

/// The pinyin `unicode` in the notation `notation`, one of the ten:
/// itself for `Unicode`; its full form for `Ascii`, the first letter of
/// that for `AsciiFirstLetter`, that and the tone's digit for
/// `AsciiTone`; for a double-letter scheme, the form of the full pinyin
/// in that scheme.
pub open spec fn spec_notation(notation: PinyinNotation, unicode: Seq<char>) -> Option<Seq<char>> {
    if notation.0 == UNICODE {
        Some(unicode)
    } else {
        match spec_unicode_to_ascii(unicode) {
            None => None,
            Some(ascii) => if notation.0 == ASCII {
                Some(ascii)
            } else if notation.0 == ASCII_FIRST_LETTER {
                Some(ascii.take(1))
            } else if notation.0 == ASCII_TONE {
                Some(ascii.push(tone_digit(spec_unicode_tone(unicode))))
            } else {
                spec_ascii_map(notation, ascii)
            },
        }
    }
}

/// A valid pinyin has a form in each of the ten notations: not empty, no
/// longer in bytes than the notation's `max_len`, which is no more than
/// seven, and in lower case. Apart from the Unicode notation the form is
/// ASCII.
pub proof fn lemma_notation_of_valid(notation: PinyinNotation, unicode: Seq<char>)
    requires
        notation.is_single(),
        valid_pinyin(unicode),
    ensures
        spec_notation(notation, unicode) is Some,
        spec_notation(notation, unicode)->0.len() >= 1,
        notation.spec_max_len() is Some,
        utf8_len(spec_notation(notation, unicode)->0) <= notation.spec_max_len()->0 <= 7,
        notation.0 != UNICODE ==> is_ascii_chars(spec_notation(notation, unicode)->0),
        mono_lowercase_seq(spec_notation(notation, unicode)->0) == spec_notation(
            notation,
            unicode,
        )->0,
{
    let ascii = spec_unicode_to_ascii(unicode)->0;
    lemma_ascii_is_lower(unicode);
    lemma_utf8_len_ascii(ascii);
    let b = notation.0;
    assert(b == 0x8 ==> b & 0xC != 0) by (bit_vector);
    assert(b == 0x4 ==> b & 0xC != 0) by (bit_vector);
    assert(b == 0x2 ==> b & 0xC == 0 && b & 0x2 != 0) by (bit_vector);
    assert(b == 0x1 ==> b & 0xC == 0 && b & 0x2 == 0 && b & 0x3F0 == 0 && b & 0x1 != 0)
        by (bit_vector);
    assert(b == 0x10 || b == 0x20 || b == 0x40 || b == 0x80 || b == 0x100 || b == 0x200 ==> b & 0xC
        == 0 && b & 0x2 == 0 && b & 0x3F0 != 0) by (bit_vector);
    if b == UNICODE {
        crate::unicode::utf8::lemma_utf8_len_bounds(unicode);
        assert(ascii.len() >= 1);
        lemma_unicode_not_empty(unicode);
    } else if b == ASCII {
        assert(mono_lowercase_seq(ascii) =~= ascii);
    } else if b == ASCII_FIRST_LETTER {
        assert(is_ascii_chars(ascii.take(1)));
        lemma_utf8_len_ascii(ascii.take(1));
        assert(mono_lowercase_seq(ascii.take(1)) =~= ascii.take(1));
    } else if b == ASCII_TONE {
        let t = ascii.push(tone_digit(spec_unicode_tone(unicode)));
        assert(is_ascii_chars(t));
        lemma_utf8_len_ascii(t);
        assert(mono_lowercase_seq(t) =~= t);
    } else {
        let k: int = if b == DILETTER_ABC {
            0
        } else if b == DILETTER_JIAJIA {
            1
        } else if b == DILETTER_MICROSOFT {
            2
        } else if b == DILETTER_THUNISOFT {
            3
        } else if b == DILETTER_XIAOHE {
            4
        } else {
            5
        };
        assert(diletter_notations()[k] == notation);
        assert(valid_diletter(diletter_notations()[k], ascii));
        lemma_utf8_len_ascii(spec_ascii_map(notation, ascii)->0);
    }
}

proof fn lemma_unicode_not_empty(unicode: Seq<char>)
    requires
        spec_unicode_to_ascii(unicode) is Some,
        spec_unicode_to_ascii(unicode)->0.len() >= 1,
    ensures
        unicode.len() >= 1,
{
}

/// The form of a valid pinyin in `AsciiFirstLetter` is the first letter of
/// its form in `Ascii`.
pub proof fn lemma_first_letter(unicode: Seq<char>)
    requires
        valid_pinyin(unicode),
    ensures
        spec_notation(PinyinNotation(ASCII_FIRST_LETTER), unicode)->0 == spec_notation(
            PinyinNotation(ASCII),
            unicode,
        )->0.subrange(0, 1),
{
}

} // verus!
