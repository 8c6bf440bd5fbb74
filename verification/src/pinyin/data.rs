//! The pinyins of a dictionary in each notation that has been asked for.
use vstd::prelude::*;
use vstd::utf8::{is_ascii_chars, is_ascii_chars_encode_utf8};
use crate::pinyin::encode::{
    ascii_map_fn, spec_split_point, spec_unicode_to_ascii, split_point, unicode_to_ascii,
    unicode_to_ascii_tone,
};
use crate::pinyin::notation::{
    ASCII, ASCII_FIRST_LETTER, ASCII_TONE, DILETTER_ABC, DILETTER_BITS, DILETTER_JIAJIA,
    DILETTER_MICROSOFT, DILETTER_THUNISOFT, DILETTER_XIAOHE, DILETTER_ZRM, PinyinNotation, UNICODE,
};
use crate::pinyin::string::PinyinString;
use crate::pinyin::table::{
    diletter_notations, lemma_ascii_is_lower, lemma_notation_of_valid, lemma_row_is_prefix,
    NO_PINYIN, PinyinTable, spec_notation, spec_row, valid_diletter, valid_pinyin,
};
use crate::unicode::case::{CharToMonoLowercase, mono_lowercase_seq};
use crate::unicode::utf8::{
    chars_of, lemma_utf8_len_ascii, lemma_utf8_len_is_encoded_len, relate, Relation, spec_relate,
    utf8_len,
};

verus! {

/// Whether folding to lower case leaves `s` as it is.
pub fn is_lowercase(s: &str) -> (r: bool)
    ensures
        r == (mono_lowercase_seq(s@) == s@),
{
    for c in it: s.chars()
        invariant
            it.seq() == s@,
            forall|j: int| 0 <= j < it.index() ==> mono_lowercase_seq(s@)[j] == s@[j],
    {
        if c.to_mono_lowercase() != c {
            proof {
                assert(mono_lowercase_seq(s@)[it.index() as int] != s@[it.index() as int]);
            }
            return false;
        }
    }
    proof {
        assert(mono_lowercase_seq(s@) =~= s@);
    }
    true
}

/// Whether `unicode` is a pinyin of which every notation can be made.
pub fn is_valid_pinyin(unicode: &str) -> (r: bool)
    ensures
        r == valid_pinyin(unicode@),
{
    proof {
        lemma_utf8_len_is_encoded_len(unicode@);
        lemma_ascii_is_lower(unicode@);
        if spec_unicode_to_ascii(unicode@) is Some {
            lemma_utf8_len_ascii(spec_unicode_to_ascii(unicode@)->0);
        }
    }
    if unicode.as_bytes().len() > 7 {
        return false;
    }
    if !is_lowercase(unicode) {
        return false;
    }
    match unicode_to_ascii(unicode) {
        None => false,
        Some(ascii) => {
            let s = ascii.as_str();
            proof {
                lemma_utf8_len_is_encoded_len(s@);
            }
            let n = s.as_bytes().len();
            if n < 1 || n > 6 {
                return false;
            }
            let schemes: [PinyinNotation; 6] = [
                PinyinNotation(DILETTER_ABC),
                PinyinNotation(DILETTER_JIAJIA),
                PinyinNotation(DILETTER_MICROSOFT),
                PinyinNotation(DILETTER_THUNISOFT),
                PinyinNotation(DILETTER_XIAOHE),
                PinyinNotation(DILETTER_ZRM),
            ];
            assert(schemes@ =~= diletter_notations());
            let mut k: usize = 0;
            while k < 6
                invariant
                    k <= 6,
                    schemes@ == diletter_notations(),
                    s@ == spec_unicode_to_ascii(unicode@)->0,
                    forall|j: int|
                        0 <= j < k ==> valid_diletter(#[trigger] diletter_notations()[j], s@),
                decreases 6 - k,
            {
                let notation = schemes[k];
                proof {
                    let b = notation.0;
                    assert(b == 0x10 || b == 0x20 || b == 0x40 || b == 0x80 || b == 0x100 || b
                        == 0x200 ==> b & 0x3F0 != 0) by (bit_vector);
                }
                match ascii_map_fn(notation, s) {
                    None => {
                        assert(!valid_diletter(diletter_notations()[k as int], s@));
                        return false;
                    },
                    Some(d) => {
                        let ds = d.as_str();
                        proof {
                            if is_ascii_chars(ds@) {
                                is_ascii_chars_encode_utf8(ds@);
                            }
                        }
                        if !(ds.is_ascii() && ds.as_bytes().len() == 2 && is_lowercase(ds)) {
                            assert(!valid_diletter(diletter_notations()[k as int], s@));
                            return false;
                        }
                    },
                }
                k = k + 1;
            }
            true
        },
    }
}

impl PinyinTable {
    /// Whether the tables fit together.
    pub fn is_wf(&self) -> (r: bool)
        ensures
            r == self.wf(),
    {
        let n = self.pinyins.len();
        if n >= 0xFFFF {
            return false;
        }
        let mut i: usize = 0;
        while i < n
            invariant
                i <= n,
                n == self.pinyins.len(),
                forall|j: int| 0 <= j < i ==> valid_pinyin(#[trigger] self.unicode(j)),
            decreases n - i,
        {
            if !is_valid_pinyin(self.pinyins[i].as_str()) {
                assert(!valid_pinyin(self.unicode(i as int)));
                return false;
            }
            i = i + 1;
        }
        let mut r: usize = 0;
        while r < self.ranges.len()
            invariant
                r <= self.ranges.len(),
                n == self.pinyins.len(),
                forall|q: int|
                    0 <= q < r ==> {
                        &&& (#[trigger] self.ranges@[q]).wf()
                        &&& forall|k: int|
                            0 <= k < self.ranges@[q].table@.len() ==> self.valid_entry(
                                #[trigger] self.ranges@[q].table@[k],
                            )
                    },
            decreases self.ranges.len() - r,
        {
            let range = &self.ranges[r];
            if range.start > range.end {
                assert(!self.ranges@[r as int].wf());
                return false;
            }
            let span: u32 = range.end - range.start;
            if range.table.len() == 0 || range.table.len() - 1 != span as usize {
                assert(!self.ranges@[r as int].wf());
                return false;
            }
            let mut k: usize = 0;
            while k < range.table.len()
                invariant
                    k <= range.table.len(),
                    n == self.pinyins.len(),
                    r < self.ranges.len(),
                    range == self.ranges@[r as int],
                    forall|j: int|
                        0 <= j < k ==> self.valid_entry(#[trigger] range.table@[j]),
                decreases range.table.len() - k,
            {
                let entry = range.table[k];
                if !(entry == NO_PINYIN || (entry as usize) < n || entry as usize - n
                    < self.combinations.len()) {
                    assert(!self.valid_entry(self.ranges@[r as int].table@[k as int]));
                    return false;
                }
                k = k + 1;
            }
            r = r + 1;
        }
        let mut j: usize = 0;
        while j < self.combinations.len()
            invariant
                j <= self.combinations.len(),
                n == self.pinyins.len(),
                forall|q: int|
                    0 <= q < j ==> self.valid_row(#[trigger] self.combinations@[q]@),
            decreases self.combinations.len() - j,
        {
            let row = &self.combinations[j];
            proof {
                lemma_row_is_prefix(row@);
            }
            let mut k: usize = 0;
            while k < row.len() && row[k] != NO_PINYIN
                invariant
                    k <= row.len(),
                    n == self.pinyins.len(),
                    j < self.combinations.len(),
                    row == self.combinations@[j as int],
                    k <= spec_row(row@).len() <= row@.len(),
                    forall|q: int|
                        0 <= q < spec_row(row@).len() ==> spec_row(row@)[q] == row@[q] && row@[q]
                            != NO_PINYIN,
                    spec_row(row@).len() < row@.len() ==> row@[spec_row(row@).len() as int]
                        == NO_PINYIN,
                    forall|q: int| 0 <= q < k ==> (#[trigger] spec_row(row@)[q]) < n,
                decreases row.len() - k,
            {
                if row[k] as usize >= n {
                    assert(k < spec_row(row@).len());
                    assert(spec_row(row@)[k as int] >= n);
                    assert(!self.valid_row(self.combinations@[j as int]@));
                    return false;
                }
                k = k + 1;
            }
            assert(k == spec_row(row@).len());
            j = j + 1;
        }
        true
    }
}

/// The notation that is kept in the `k`-th slot of a `PinyinData`.
pub open spec fn slot_notation(k: int) -> PinyinNotation {
    if k == 0 {
        PinyinNotation(ASCII)
    } else if k == 1 {
        PinyinNotation(ASCII_TONE)
    } else if k == 2 {
        PinyinNotation(DILETTER_ABC)
    } else if k == 3 {
        PinyinNotation(DILETTER_JIAJIA)
    } else if k == 4 {
        PinyinNotation(DILETTER_MICROSOFT)
    } else if k == 5 {
        PinyinNotation(DILETTER_THUNISOFT)
    } else if k == 6 {
        PinyinNotation(DILETTER_XIAOHE)
    } else {
        PinyinNotation(DILETTER_ZRM)
    }
}

/// The slot from which a notation is read; none for the Unicode
/// notation, which is read from the table.
pub open spec fn slot_of(notation: PinyinNotation) -> int {
    if notation.0 == ASCII || notation.0 == ASCII_FIRST_LETTER {
        0
    } else if notation.0 == ASCII_TONE {
        1
    } else if notation.0 == DILETTER_ABC {
        2
    } else if notation.0 == DILETTER_JIAJIA {
        3
    } else if notation.0 == DILETTER_MICROSOFT {
        4
    } else if notation.0 == DILETTER_THUNISOFT {
        5
    } else if notation.0 == DILETTER_XIAOHE {
        6
    } else {
        7
    }
}

/// What `init_notations` records of the notations that it is asked for:
/// the notations, and `Ascii` with them where one of them is a
/// double-letter notation, which is made of the strings of `Ascii`.
pub open spec fn spec_recorded(notations: PinyinNotation) -> PinyinNotation {
    if notations.0 & DILETTER_BITS != 0 {
        PinyinNotation(notations.0 | ASCII)
    } else {
        notations
    }
}

/// What `init_notations` makes of the set of notations that a
/// `PinyinData` has: the union with what it records.
pub open spec fn spec_init(inited: PinyinNotation, notations: PinyinNotation) -> PinyinNotation {
    inited.spec_union(spec_recorded(notations))
}

/// The pinyins of a dictionary, each in the Unicode notation and in every
/// other notation that has been asked for.
///
/// `AsciiFirstLetter` is read from the strings of `Ascii`.
pub struct PinyinData {
    table: PinyinTable,
    inited_notations: PinyinNotation,
    slots: Vec<Option<Vec<PinyinString>>>,
}

impl PinyinData {
    /// The tables that the data was made from.
    pub closed spec fn table(&self) -> PinyinTable {
        self.table
    }

    /// The notations that have been asked for.
    pub closed spec fn inited(&self) -> PinyinNotation {
        self.inited_notations
    }

    spec fn slot_ok(&self, k: int) -> bool {
        let slot = self.slots@[k]->0;
        &&& slot@.len() == self.table.count()
        &&& forall|i: int|
            0 <= i < self.table.count() ==> (#[trigger] slot@[i])@ == spec_notation(
                slot_notation(k),
                self.table.unicode(i),
            )->0
    }

    /// Whether the strings of `notation`, one of the ten, are at hand.
    pub closed spec fn has_notation(&self, notation: PinyinNotation) -> bool {
        notation.0 == UNICODE || self.slots@[slot_of(notation)] is Some
    }

    /// The tables are well formed, and every string that is kept is the
    /// form of its pinyin in its notation.
    pub closed spec fn wf(&self) -> bool {
        &&& self.table.wf()
        &&& self.slots@.len() == 8
        &&& forall|k: int| 0 <= k < 8 && (#[trigger] self.slots@[k]) is Some ==> self.slot_ok(k)
        &&& forall|k: int| 2 <= k < 8 && (#[trigger] self.slots@[k]) is Some ==> self.slots@[0] is
            Some
        &&& forall|n: PinyinNotation|
            n.is_single() && #[trigger] self.inited_notations.spec_contains(n)
                ==> self.has_notation(n)
        &&& self.inited_notations.0 & DILETTER_BITS != 0 ==> self.inited_notations.0 & ASCII
            == ASCII
    }

    /// What is known of every well-formed dictionary: its tables are well
    /// formed, and the strings of every notation that was asked for are at
    /// hand; with a double-letter notation, `Ascii` is recorded and its
    /// strings are at hand too.
    pub proof fn lemma_wf(&self)
        requires
            self.wf(),
        ensures
            self.table().wf(),
            forall|n: PinyinNotation|
                n.is_single() && #[trigger] self.inited().spec_contains(n) ==> self.has_notation(n),
            self.has_notation(PinyinNotation(UNICODE)),
            forall|n: PinyinNotation|
                n.is_single() && n.0 & DILETTER_BITS != 0 && #[trigger] self.has_notation(n)
                    ==> self.has_notation(PinyinNotation(ASCII)),
            self.inited().0 & DILETTER_BITS != 0 ==> self.inited().spec_contains(
                PinyinNotation(ASCII),
            ),
    {
        assert forall|n: PinyinNotation|
            n.is_single() && n.0 & DILETTER_BITS != 0 && #[trigger] self.has_notation(
                n,
            ) implies self.has_notation(PinyinNotation(ASCII)) by {
            let b = n.0;
            assert((b == 0x1 || b == 0x2 || b == 0x4 || b == 0x8 || b == 0x10 || b == 0x20 || b
                == 0x40 || b == 0x80 || b == 0x100 || b == 0x200) && b & 0x3F0 != 0 ==> (b == 0x10
                || b == 0x20 || b == 0x40 || b == 0x80 || b == 0x100 || b == 0x200))
                by (bit_vector);
            assert(self.slots@[slot_of(n)] is Some);
        }
    }

    /// The data of `table` with the strings of `notations`; `None` where
    /// the tables are not well formed.
    pub fn new(table: PinyinTable, notations: PinyinNotation) -> (r: Option<PinyinData>)
        ensures
            r is Some == table.wf(),
            r is Some ==> {
                &&& r->0.wf()
                &&& r->0.table() == table
                &&& r->0.inited() == spec_init(PinyinNotation(UNICODE), notations)
            },
    {
        if !table.is_wf() {
            return None;
        }
        let mut slots: Vec<Option<Vec<PinyinString>>> = Vec::new();
        let mut k: usize = 0;
        while k < 8
            invariant
                k <= 8,
                slots@.len() == k,
                forall|j: int| 0 <= j < k ==> (#[trigger] slots@[j]) is None,
            decreases 8 - k,
        {
            slots.push(None);
            k = k + 1;
        }
        let mut data = PinyinData { table, inited_notations: PinyinNotation(UNICODE), slots };
        proof {
            assert forall|n: PinyinNotation|
                n.is_single() && #[trigger] data.inited_notations.spec_contains(n)
                    implies data.has_notation(n) by {
                let b = n.0;
                assert((b == 0x1 || b == 0x2 || b == 0x4 || b == 0x8 || b == 0x10 || b == 0x20 || b
                    == 0x40 || b == 0x80 || b == 0x100 || b == 0x200) && 0x8u32 & b == b ==> b
                    == 0x8) by (bit_vector);
            }
            assert(0x8u32 & 0x3F0 == 0) by (bit_vector);
        }
        data.init_notations(notations);
        Some(data)
    }

    /// The notations that have been asked for.
    pub fn inited_notations(&self) -> (r: PinyinNotation)
        ensures
            r == self.inited(),
    {
        self.inited_notations
    }

    /// The tables that the data was made from.
    pub fn tables(&self) -> (r: &PinyinTable)
        ensures
            *r == self.table(),
    {
        &self.table
    }

    fn fill_slot(&mut self, k: usize)
        requires
            old(self).wf(),
            k < 8,
            k >= 2 ==> old(self).slots@[0] is Some,
        ensures
            final(self).wf(),
            final(self).table == old(self).table,
            final(self).inited_notations == old(self).inited_notations,
            final(self).slots@[k as int] is Some,
            forall|j: int| 0 <= j < 8 && old(self).slots@[j] is Some ==> final(self).slots@[j] is
                Some,
            old(self).slots@[k as int] is Some ==> final(self).slots@ == old(self).slots@,
    {
        if self.slots[k].is_some() {
            return ;
        }
        let n = self.table.pinyins.len();
        let mut out: Vec<PinyinString> = Vec::new();
        let mut i: usize = 0;
        while i < n
            invariant
                self.wf(),
                *self == *old(self),
                k < 8,
                k >= 2 ==> self.slots@[0] is Some,
                i <= n,
                n == self.table.count(),
                out@.len() == i,
                forall|j: int|
                    0 <= j < i ==> (#[trigger] out@[j])@ == spec_notation(
                        slot_notation(k as int),
                        self.table.unicode(j),
                    )->0,
            decreases n - i,
        {
            let ghost unicode = self.table.unicode(i as int);
            proof {
                assert(valid_pinyin(unicode));
                lemma_notation_of_valid(slot_notation(k as int), unicode);
                lemma_notation_of_valid(PinyinNotation(ASCII), unicode);
                lemma_ascii_is_lower(unicode);
                lemma_utf8_len_ascii(spec_unicode_to_ascii(unicode)->0);
            }
            let made = if k == 0 {
                unicode_to_ascii(self.table.pinyins[i].as_str())
            } else if k == 1 {
                unicode_to_ascii_tone(self.table.pinyins[i].as_str())
            } else {
                let notation = if k == 2 {
                    PinyinNotation(DILETTER_ABC)
                } else if k == 3 {
                    PinyinNotation(DILETTER_JIAJIA)
                } else if k == 4 {
                    PinyinNotation(DILETTER_MICROSOFT)
                } else if k == 5 {
                    PinyinNotation(DILETTER_THUNISOFT)
                } else if k == 6 {
                    PinyinNotation(DILETTER_XIAOHE)
                } else {
                    PinyinNotation(DILETTER_ZRM)
                };
                proof {
                    let b = notation.0;
                    assert(b == 0x10 || b == 0x20 || b == 0x40 || b == 0x80 || b == 0x100 || b
                        == 0x200 ==> b & 0x3F0 != 0) by (bit_vector);
                    assert(self.slot_ok(0));
                }
                match &self.slots[0] {
                    Some(ascii) => ascii_map_fn(notation, ascii[i].as_str()),
                    None => None,
                }
            };
            match made {
                Some(s) => {
                    out.push(s);
                },
                None => {
                    assert(false);
                },
            }
            i = i + 1;
        }
        let ghost before = *self;
        self.slots.set(k, Some(out));
        proof {
            assert forall|j: int| 0 <= j < 8 && (#[trigger] self.slots@[j]) is Some implies
                self.slot_ok(
                j,
            ) by {
                if j != k {
                    assert(before.slot_ok(j));
                }
            }
            assert forall|m: PinyinNotation|
                m.is_single() && #[trigger] self.inited_notations.spec_contains(m)
                    implies self.has_notation(m) by {
                assert(before.has_notation(m));
            }
            assert forall|j: int| 2 <= j < 8 && (#[trigger] self.slots@[j]) is Some implies
                self.slots@[0] is Some by {
                if j != k {
                    assert(before.slots@[j] is Some);
                }
            }
        }
    }

    /// The strings of each notation that is kept are at hand where the
    /// notation has been asked for; those of the full pinyin also where
    /// its first letters or a double-letter scheme have been asked for.
    proof fn lemma_inited_at_hand(&self)
        requires
            self.wf(),
        ensures
            forall|k: int|
                1 <= k < 8 && self.inited_notations.spec_contains(#[trigger] slot_notation(k))
                    ==> self.slots@[k] is Some,
            self.inited_notations.0 & 0x3F3 != 0 ==> self.slots@[0] is Some,
    {
        let a = self.inited_notations.0;
        assert forall|k: int|
            0 <= k < 8 && self.inited_notations.spec_contains(
                #[trigger] slot_notation(k),
            ) implies self.slots@[k] is Some by {
            assert(slot_notation(k).is_single());
            assert(self.has_notation(slot_notation(k)));
        }
        assert(self.inited_notations.spec_contains(PinyinNotation(ASCII_FIRST_LETTER))
            ==> self.has_notation(PinyinNotation(ASCII_FIRST_LETTER)));
        assert(a & 0x3F3 != 0 ==> (a & 0x1 == 0x1 || a & 0x2 == 0x2 || a & 0x10 == 0x10 || a & 0x20
            == 0x20 || a & 0x40 == 0x40 || a & 0x80 == 0x80 || a & 0x100 == 0x100 || a & 0x200
            == 0x200)) by (bit_vector);
        if a & 0x3F3 != 0 {
            assert(self.inited_notations.spec_contains(slot_notation(0))
                || self.inited_notations.spec_contains(PinyinNotation(ASCII_FIRST_LETTER))
                || self.inited_notations.spec_contains(slot_notation(2))
                || self.inited_notations.spec_contains(slot_notation(3))
                || self.inited_notations.spec_contains(slot_notation(4))
                || self.inited_notations.spec_contains(slot_notation(5))
                || self.inited_notations.spec_contains(slot_notation(6))
                || self.inited_notations.spec_contains(slot_notation(7)));
        }
    }

    /// Makes the strings of `notations` that are not at hand yet. The
    /// double-letter schemes are made from the full pinyin, which is made
    /// with them.
    pub fn init_notations(&mut self, notations: PinyinNotation)
        requires
            old(self).wf(),
        ensures
            final(self).wf(),
            final(self).table() == old(self).table(),
            final(self).inited() == spec_init(old(self).inited(), notations),
            forall|n: PinyinNotation|
                old(self).has_notation(n) ==> #[trigger] final(self).has_notation(n),
            old(self).inited().spec_contains(notations)
                ==> final(self).inited() == old(self).inited()
                && forall|n: PinyinNotation|
                #[trigger] final(self).has_notation(n) == old(self).has_notation(n),
    {
        let bits = notations.0;
        proof {
            let a = self.inited_notations.0;
            assert(a & bits == bits ==> a | bits == a) by (bit_vector);
        }
        let mut k: usize = 0;
        while k < 8
            invariant
                k <= 8,
                self.wf(),
                self.table == old(self).table,
                self.inited_notations == old(self).inited_notations,
                bits == notations.0,
                forall|j: int| 0 <= j < 8 && old(self).slots@[j] is Some ==> self.slots@[j] is Some,
                old(self).inited_notations.spec_contains(notations)
                    ==> self.slots@ == old(self).slots@,
                forall|j: int|
                    0 <= j < k && (if j == 0 {
                        bits & 0x3F3 != 0
                    } else {
                        notations.spec_contains(slot_notation(j))
                    }) ==> (#[trigger] self.slots@[j]) is Some,
            decreases 8 - k,
        {
            let wanted = if k == 0 {
                bits & 0x3F3 != 0
            } else if k == 1 {
                bits & ASCII_TONE == ASCII_TONE
            } else if k == 2 {
                bits & DILETTER_ABC == DILETTER_ABC
            } else if k == 3 {
                bits & DILETTER_JIAJIA == DILETTER_JIAJIA
            } else if k == 4 {
                bits & DILETTER_MICROSOFT == DILETTER_MICROSOFT
            } else if k == 5 {
                bits & DILETTER_THUNISOFT == DILETTER_THUNISOFT
            } else if k == 6 {
                bits & DILETTER_XIAOHE == DILETTER_XIAOHE
            } else {
                bits & DILETTER_ZRM == DILETTER_ZRM
            };
            if wanted {
                proof {
                    assert(bits & 0x3F3 == 0 ==> bits & 0x10 != 0x10 && bits & 0x20 != 0x20 && bits
                        & 0x40 != 0x40 && bits & 0x80 != 0x80 && bits & 0x100 != 0x100 && bits
                        & 0x200 != 0x200) by (bit_vector);
                    if self.inited_notations.spec_contains(notations) {
                        let a = self.inited_notations.0;
                        assert(a & bits == bits && bits & 0x3F3 != 0 ==> a & 0x3F3 != 0)
                            by (bit_vector);
                        assert(forall|b: u32|
                            a & bits == bits && bits & b == b ==> #[trigger] (a & b) == b)
                            by (bit_vector);
                        self.lemma_inited_at_hand();
                        assert(k >= 1 ==> bits & slot_notation(k as int).0 == slot_notation(
                            k as int,
                        ).0);
                        assert(k >= 1 ==> self.inited_notations.spec_contains(
                            slot_notation(k as int),
                        ));
                        assert(self.slots@[k as int] is Some);
                    }
                }
                self.fill_slot(k);
            }
            k = k + 1;
        }
        let ghost before = *self;
        let recorded = if notations.0 & DILETTER_BITS != 0 {
            notations.union(PinyinNotation::ascii())
        } else {
            notations
        };
        self.inited_notations = self.inited_notations.union(recorded);
        proof {
            let a = before.inited_notations.0;
            assert((a & 0x3F0 != 0 ==> a & 0x2 == 0x2) ==> ((a | (bits | 0x2)) & 0x2 == 0x2))
                by (bit_vector);
            assert((a & 0x3F0 != 0 ==> a & 0x2 == 0x2) && bits & 0x3F0 == 0 && (a | bits) & 0x3F0
                != 0 ==> (a | bits) & 0x2 == 0x2) by (bit_vector);
            assert(a & bits == bits ==> a | bits == a) by (bit_vector);
            assert(a & bits == bits && bits & 0x3F0 != 0 && (a & 0x3F0 != 0 ==> a & 0x2 == 0x2)
                ==> a | (bits | 0x2) == a) by (bit_vector);
            assert forall|m: PinyinNotation|
                m.is_single() && #[trigger] self.inited_notations.spec_contains(m)
                    implies self.has_notation(m) by {
                let a = before.inited_notations.0;
                let b = m.0;
                let rec = recorded.0;
                assert((b == 0x1 || b == 0x2 || b == 0x4 || b == 0x8 || b == 0x10 || b == 0x20 || b
                    == 0x40 || b == 0x80 || b == 0x100 || b == 0x200) && (a | rec) & b == b ==> (a
                    & b == b || rec & b == b)) by (bit_vector);
                if before.inited_notations.spec_contains(m) {
                    assert(before.has_notation(m));
                } else {
                    assert(rec & b == b);
                    assert((b == 0x1 || b == 0x2 || b == 0x4 || b == 0x8 || b == 0x10 || b == 0x20
                        || b == 0x40 || b == 0x80 || b == 0x100 || b == 0x200) && (bits | 0x2) & b
                        == b ==> (bits & b == b || b == 0x2)) by (bit_vector);
                    assert(bits & 0x3F0 != 0 ==> bits & 0x3F3 != 0) by (bit_vector);
                    assert((b == 0x1 || b == 0x2) && bits & b == b ==> bits & 0x3F3 != 0)
                        by (bit_vector);
                    if b != UNICODE {
                        let j = slot_of(m);
                        assert(self.slots@[j] is Some);
                    }
                }
            }
            assert forall|j: int| 0 <= j < 8 && (#[trigger] self.slots@[j]) is Some implies
                self.slot_ok(
                j,
            ) by {
                assert(before.slot_ok(j));
            }
        }
    }

    /// The pinyin of the given index in the notation `notation`, one of
    /// the ten.
    pub fn notation_str(&self, index: u16, notation: PinyinNotation) -> (r: Option<&str>)
        requires
            self.wf(),
            index < self.table().count(),
            notation.is_single(),
        ensures
            r is Some == self.has_notation(notation),
            r is Some ==> Some(r->0@) == spec_notation(notation, self.table().unicode(
                index as int)),
    {
        let i = index as usize;
        proof {
            assert(valid_pinyin(self.table.unicode(index as int)));
            lemma_notation_of_valid(notation, self.table.unicode(index as int));
            lemma_notation_of_valid(PinyinNotation(ASCII), self.table.unicode(index as int));
        }
        if notation.0 == UNICODE {
            Some(self.table.pinyins[i].as_str())
        } else {
            let k: usize = if notation.0 == ASCII || notation.0 == ASCII_FIRST_LETTER {
                0
            } else if notation.0 == ASCII_TONE {
                1
            } else if notation.0 == DILETTER_ABC {
                2
            } else if notation.0 == DILETTER_JIAJIA {
                3
            } else if notation.0 == DILETTER_MICROSOFT {
                4
            } else if notation.0 == DILETTER_THUNISOFT {
                5
            } else if notation.0 == DILETTER_XIAOHE {
                6
            } else {
                7
            };
            match &self.slots[k] {
                None => None,
                Some(strings) => {
                    assert(self.slot_ok(k as int));
                    let s = strings[i].as_str();
                    if notation.0 == ASCII_FIRST_LETTER {
                        let first = s.substring_char(0, 1);
                        assert(first@ == s@.take(1));
                        Some(first)
                    } else {
                        Some(s)
                    }
                },
            }
        }
    }
}

/// The characters of each string.
pub open spec fn strs_view(v: Seq<&str>) -> Seq<Seq<char>> {
    Seq::new(v.len(), |i: int| v[i]@)
}

/// `strings` without the repetitions: of each run of equal strings, the
/// first.
pub open spec fn spec_dedup(strings: Seq<Seq<char>>) -> Seq<Seq<char>>
    decreases strings.len(),
{
    if strings.len() == 0 {
        Seq::empty()
    } else if strings.len() == 1 {
        strings
    } else if strings[strings.len() - 1] == strings[strings.len() - 2] {
        spec_dedup(strings.drop_last())
    } else {
        spec_dedup(strings.drop_last()).push(strings.last())
    }
}

/// `Itertools::dedup` on the strings, collected: of each run of equal
/// strings, the first is kept.
#[verifier::external_body]
fn dedup_strs<'a>(strings: Vec<&'a str>) -> (r: Vec<&'a str>)
    ensures
        strs_view(r@) == spec_dedup(strs_view(strings@)),
{
    itertools::Itertools::dedup(strings.into_iter()).collect()
}

/// `strings` without the repetitions: each string where it stands first.
pub open spec fn spec_distinct(strings: Seq<Seq<char>>) -> Seq<Seq<char>>
    decreases strings.len(),
{
    if strings.len() == 0 {
        Seq::empty()
    } else {
        let rest = spec_distinct(strings.drop_last());
        if rest.contains(strings.last()) {
            rest
        } else {
            rest.push(strings.last())
        }
    }
}

/// `spec_distinct` holds the strings that `strings` holds, and none of
/// them twice.
pub proof fn lemma_distinct(strings: Seq<Seq<char>>)
    ensures
        forall|x: Seq<char>| #[trigger]
            spec_distinct(strings).contains(x) <==> strings.contains(x),
        forall|i: int, j: int|
            0 <= i < j < spec_distinct(strings).len() ==> spec_distinct(strings)[i]
                != spec_distinct(strings)[j],
    decreases strings.len(),
{
    let all = spec_distinct(strings);
    if strings.len() > 0 {
        let before = strings.drop_last();
        let rest = spec_distinct(before);
        let last = strings.last();
        lemma_distinct(before);
        assert forall|x: Seq<char>| #[trigger] all.contains(x) <==> strings.contains(x) by {
            assert(rest.contains(x) <==> before.contains(x));
            if all.contains(x) {
                let k = choose|k: int| 0 <= k < all.len() && all[k] == x;
                if k < rest.len() {
                    assert(rest[k] == x);
                    assert(rest.contains(x));
                    let i = choose|i: int| 0 <= i < before.len() && before[i] == x;
                    assert(strings[i] == x);
                } else {
                    assert(strings[strings.len() - 1] == x);
                }
            }
            if strings.contains(x) {
                let i = choose|i: int| 0 <= i < strings.len() && strings[i] == x;
                if i < before.len() {
                    assert(before[i] == x);
                    assert(before.contains(x));
                    let k = choose|k: int| 0 <= k < rest.len() && rest[k] == x;
                    assert(all[k] == x);
                } else if rest.contains(last) {
                } else {
                    assert(all[rest.len() as int] == x);
                }
            }
        }
        assert forall|i: int, j: int| 0 <= i < j < all.len() implies all[i] != all[j] by {
            if j == rest.len() {
                assert(rest[i] == all[i]);
                assert(rest.contains(all[i]));
            } else {
                assert(rest[i] == all[i] && rest[j] == all[j]);
            }
        }
    }
}

/// To drop the repetitions that stand next to each other first changes
/// nothing in `spec_distinct`.
pub proof fn lemma_distinct_dedup(strings: Seq<Seq<char>>)
    ensures
        spec_distinct(spec_dedup(strings)) == spec_distinct(strings),
    decreases strings.len(),
{
    if strings.len() >= 2 {
        let before = strings.drop_last();
        lemma_distinct_dedup(before);
        lemma_distinct(before);
        if strings[strings.len() - 1] == strings[strings.len() - 2] {
            assert(before[before.len() - 1] == strings.last());
            assert(before.contains(strings.last()));
            assert(spec_distinct(before).contains(strings.last()));
        } else {
            assert(spec_dedup(before).push(strings.last()).drop_last() == spec_dedup(before));
        }
    }
}

/// Whether a string holds the characters `b`.
fn same_text(a: &str, b: &[char]) -> (r: bool)
    ensures
        r == (a@ == b@),
{
    if b.len() == 0 {
        let empty = a.unicode_len() == 0;
        proof {
            if empty {
                assert(a@ =~= b@);
            }
        }
        empty
    } else {
        proof {
            assert(b@.skip(0) == b@);
            if spec_relate(a@, b@) is Exact {
                assert(a@ =~= b@);
            }
        }
        match relate(a, b, 0).0 {
            Relation::Exact => true,
            _ => false,
        }
    }
}

/// The strings without the repetitions: each where it stands first.
fn distinct_strs<'a>(strings: Vec<&'a str>) -> (r: Vec<&'a str>)
    ensures
        strs_view(r@) == spec_distinct(strs_view(strings@)),
{
    let mut out: Vec<&'a str> = Vec::new();
    let ghost all = strs_view(strings@);
    let mut i: usize = 0;
    proof {
        assert(strs_view(out@) =~= spec_distinct(all.take(0)));
    }
    while i < strings.len()
        invariant
            i <= strings.len(),
            all == strs_view(strings@),
            strs_view(out@) == spec_distinct(all.take(i as int)),
        decreases strings.len() - i,
    {
        let s = strings[i];
        let chars = chars_of(s);
        let mut j: usize = 0;
        let mut found = false;
        while j < out.len() && !found
            invariant
                j <= out.len(),
                chars@ == s@,
                found ==> strs_view(out@).contains(s@),
                !found ==> forall|k: int| 0 <= k < j ==> (#[trigger] strs_view(out@)[k]) != s@,
            decreases out.len() - j + (if found { 0int } else { 1int }),
        {
            if same_text(out[j], chars.as_slice()) {
                assert(strs_view(out@)[j as int] == s@);
                found = true;
            } else {
                j = j + 1;
            }
        }
        let ghost before = strs_view(out@);
        if !found {
            out.push(s);
        }
        proof {
            let next = all.take(i as int + 1);
            assert(next.drop_last() == all.take(i as int));
            assert(next.last() == s@);
            if !found {
                assert(strs_view(out@) =~= before.push(s@));
            }
        }
        i = i + 1;
    }
    proof {
        assert(all.take(i as int) == all);
    }
    out
}

/// The strings of `strings` from the `k`-th on that are a prefix of
/// `haystack`, each marked `false`; where `partial` is set, also those of
/// which `haystack` is a proper prefix, each marked `true`.
pub open spec fn spec_filter_partial(
    strings: Seq<Seq<char>>,
    haystack: Seq<char>,
    partial: bool,
    k: int,
) -> Seq<(Seq<char>, bool)>
    decreases strings.len() - k,
{
    if k < 0 || k >= strings.len() {
        Seq::empty()
    } else {
        let rest = spec_filter_partial(strings, haystack, partial, k + 1);
        match spec_relate(strings[k], haystack) {
            Relation::Exact => seq![(strings[k], false)] + rest,
            Relation::Prefix => seq![(strings[k], false)] + rest,
            Relation::Partial => if partial {
                seq![(strings[k], true)] + rest
            } else {
                rest
            },
            Relation::Mismatch => rest,
        }
    }
}

/// The strings of `strings` from the `k`-th on that are a prefix of
/// `haystack`.
pub open spec fn spec_filter_prefix(
    strings: Seq<Seq<char>>,
    haystack: Seq<char>,
    k: int,
) -> Seq<Seq<char>,>
    decreases strings.len() - k,
{
    if k < 0 || k >= strings.len() {
        Seq::empty()
    } else {
        let rest = spec_filter_prefix(strings, haystack, k + 1);
        match spec_relate(strings[k], haystack) {
            Relation::Exact => seq![strings[k]] + rest,
            Relation::Prefix => seq![strings[k]] + rest,
            _ => rest,
        }
    }
}

/// Every item of `spec_filter_partial` is one of the strings; if marked
/// `false` it is a prefix of the haystack, else the haystack is a proper
/// prefix of it.
pub proof fn lemma_filter_partial(
    strings: Seq<Seq<char>>,
    haystack: Seq<char>,
    partial: bool,
    k: int,
)
    requires
        0 <= k,
    ensures
        forall|j: int|
            0 <= j < spec_filter_partial(strings, haystack, partial, k).len() ==> {
                let item = #[trigger] spec_filter_partial(strings, haystack, partial, k)[j];
                &&& strings.contains(item.0)
                &&& if item.1 {
                    partial && spec_relate(item.0, haystack) is Partial
                } else {
                    spec_relate(item.0, haystack) is Exact || spec_relate(item.0, haystack) is
                        Prefix
                }
            },
    decreases strings.len() - k,
{
    if k < strings.len() {
        lemma_filter_partial(strings, haystack, partial, k + 1);
        let rest = spec_filter_partial(strings, haystack, partial, k + 1);
        let all = spec_filter_partial(strings, haystack, partial, k);
        assert forall|j: int| 0 <= j < all.len() implies {
            let item = #[trigger] all[j];
            &&& strings.contains(item.0)
            &&& if item.1 {
                partial && spec_relate(item.0, haystack) is Partial
            } else {
                spec_relate(item.0, haystack) is Exact || spec_relate(item.0, haystack) is Prefix
            }
        } by {
            if all.len() == rest.len() {
                assert(all[j] == rest[j]);
            } else if j == 0 {
                assert(strings[k] == all[0].0);
            } else {
                assert(all[j] == rest[j - 1]);
            }
        }
    }
}

/// Of strings that are all different, `spec_filter_partial` yields each one
/// that is a prefix of the haystack, and each of which the haystack is a
/// proper prefix where `partial` is set; every item is one of the strings
/// from the `k`-th on, and none is yielded twice.
pub proof fn lemma_filter_partial_exact(
    strings: Seq<Seq<char>>,
    haystack: Seq<char>,
    partial: bool,
    k: int,
)
    requires
        0 <= k,
        forall|i: int, j: int| 0 <= i < j < strings.len() ==> strings[i] != strings[j],
    ensures
        forall|j: int|
            0 <= j < spec_filter_partial(strings, haystack, partial, k).len() ==> exists|q: int|
                k <= q < strings.len() && strings[q] == (#[trigger] spec_filter_partial(
                    strings,
                    haystack,
                    partial,
                    k,
                )[j]).0,
        forall|i: int, j: int|
            0 <= i < j < spec_filter_partial(strings, haystack, partial, k).len()
                ==> spec_filter_partial(strings, haystack, partial, k)[i].0 != spec_filter_partial(
                strings,
                haystack,
                partial,
                k,
            )[j].0,
        forall|q: int|
            k <= q < strings.len() ==> (match spec_relate(#[trigger] strings[q], haystack) {
                Relation::Exact => spec_filter_partial(strings, haystack, partial, k).contains(
                    (strings[q], false),
                ),
                Relation::Prefix => spec_filter_partial(strings, haystack, partial, k).contains(
                    (strings[q], false),
                ),
                Relation::Partial => partial ==> spec_filter_partial(
                    strings,
                    haystack,
                    partial,
                    k,
                ).contains((strings[q], true)),
                Relation::Mismatch => true,
            }),
    decreases strings.len() - k,
{
    if k < strings.len() {
        lemma_filter_partial_exact(strings, haystack, partial, k + 1);
        let rest = spec_filter_partial(strings, haystack, partial, k + 1);
        let all = spec_filter_partial(strings, haystack, partial, k);
        let kept = all.len() != rest.len();
        assert(kept ==> all == seq![all[0]] + rest && all[0].0 == strings[k]);
        assert(!kept ==> all == rest);
        assert forall|j: int| 0 <= j < all.len() implies exists|q: int|
            k <= q < strings.len() && strings[q] == (#[trigger] all[j]).0 by {
            if kept && j == 0 {
                assert(strings[k] == all[0].0);
            } else {
                let r = if kept {
                    j - 1
                } else {
                    j
                };
                assert(all[j] == rest[r]);
                let q = choose|q: int| k + 1 <= q < strings.len() && strings[q] == rest[r].0;
                assert(strings[q] == all[j].0);
            }
        }
        assert forall|i: int, j: int| 0 <= i < j < all.len() implies all[i].0 != all[j].0 by {
            if kept {
                assert(all[j] == rest[j - 1]);
                let q = choose|q: int| k + 1 <= q < strings.len() && strings[q] == rest[j - 1].0;
                if i == 0 {
                    assert(strings[k] != strings[q]);
                } else {
                    assert(all[i] == rest[i - 1]);
                }
            } else {
                assert(all[i] == rest[i] && all[j] == rest[j]);
            }
        }
        assert forall|q: int| k <= q < strings.len() implies (match spec_relate(
            #[trigger] strings[q],
            haystack,
        ) {
            Relation::Exact => all.contains((strings[q], false)),
            Relation::Prefix => all.contains((strings[q], false)),
            Relation::Partial => partial ==> all.contains((strings[q], true)),
            Relation::Mismatch => true,
        }) by {
            if q == k {
                if kept {
                    assert(all[0].0 == strings[k]);
                }
            } else {
                let wanted = match spec_relate(strings[q], haystack) {
                    Relation::Partial => (strings[q], true),
                    _ => (strings[q], false),
                };
                if rest.contains(wanted) {
                    let r = choose|r: int| 0 <= r < rest.len() && rest[r] == wanted;
                    if kept {
                        assert(all[r + 1] == wanted);
                    } else {
                        assert(all[r] == wanted);
                    }
                }
            }
        }
    }
}

/// One pinyin of a dictionary.
#[derive(Clone, Copy)]
pub struct Pinyin<'a> {
    data: &'a PinyinData,
    index: u16,
}

impl<'a> Pinyin<'a> {
    /// The dictionary of the pinyin.
    pub closed spec fn data(&self) -> &'a PinyinData {
        self.data
    }

    /// The place of the pinyin in its dictionary.
    pub closed spec fn index(&self) -> u16 {
        self.index
    }

    /// The pinyin is one of its dictionary, which is well formed.
    pub closed spec fn wf(&self) -> bool {
        self.data.wf() && self.index < self.data.table.count()
    }

    /// The pinyin in the notation `notation`, one of the ten, where its
    /// strings are at hand.
    pub fn notation(&self, notation: PinyinNotation) -> (r: Option<&'a str>)
        requires
            self.wf(),
            notation.is_single(),
        ensures
            r is Some == self.data().has_notation(notation),
            r is Some ==> Some(r->0@) == spec_notation(
                notation,
                self.data().table().unicode(self.index() as int),
            ),
            r is Some ==> r->0@.len() >= 1 && utf8_len(r->0@) <= 7,
    {
        proof {
            assert(valid_pinyin(self.data.table.unicode(self.index as int)));
            lemma_notation_of_valid(notation, self.data.table.unicode(self.index as int));
        }
        self.data.notation_str(self.index, notation)
    }

    /// The initial and the final of the full pinyin, where the strings of
    /// `Ascii` are at hand.
    pub fn initial_final(&self) -> (r: Option<(&'a str, &'a str)>)
        requires
            self.wf(),
        ensures
            r is Some == self.data().has_notation(PinyinNotation(ASCII)),
            r is Some ==> {
                let ascii = spec_notation(
                    PinyinNotation(ASCII),
                    self.data().table().unicode(self.index() as int),
                )->0;
                let (initial, last) = r->0;
                &&& initial@ == ascii.take(spec_split_point(ascii))
                &&& last@ == ascii.skip(spec_split_point(ascii))
            },
    {
        match self.notation(PinyinNotation(ASCII)) {
            None => None,
            Some(ascii) => {
                let chars = chars_of(ascii);
                let at = split_point(chars.as_slice());
                let n = ascii.unicode_len();
                let initial = ascii.substring_char(0, at);
                let last = ascii.substring_char(at, n);
                proof {
                    assert(ascii@.subrange(0, at as int) == ascii@.take(at as int));
                    assert(ascii@.subrange(at as int, n as int) == ascii@.skip(at as int));
                }
                Some((initial, last))
            },
        }
    }
}

impl PinyinData {
    /// The pinyin of the given index.
    pub fn pinyin(&self, index: u16) -> (r: Pinyin<'_>)
        requires
            self.wf(),
            index < self.table().count(),
        ensures
            r.wf(),
            r.data() == self,
            r.index() == index,
            r == self.spec_pinyin(index),
    {
        Pinyin { data: self, index }
    }

    /// The pinyins of `c`, in the order of the tables; none for a
    /// character outside `MAX_RANGE_START..=MAX_RANGE_END`.
    pub fn get_pinyins(&self, c: char) -> (r: Vec<Pinyin<'_>>)
        requires
            self.wf(),
        ensures
            r@.len() == self.table().spec_readings(c).len(),
            forall|k: int|
                0 <= k < r@.len() ==> (#[trigger] r@[k]).wf() && r@[k].data() == self
                    && r@[k].index()
                    == self.table().spec_readings(c)[k],
            !(crate::pinyin::table::MAX_RANGE_START <= c as u32
                <= crate::pinyin::table::MAX_RANGE_END) ==> r@.len() == 0,
    {
        let mut out: Vec<Pinyin<'_>> = Vec::new();
        match self.table.get_pinyin_index(c) {
            None => {},
            Some(index) => {
                let count = self.table.reading_count(index);
                let mut k: usize = 0;
                while k < count
                    invariant
                        self.wf(),
                        index != NO_PINYIN,
                        self.table.valid_entry(index),
                        count == self.table.spec_readings_of(index).len(),
                        self.table.spec_readings(c) == self.table.spec_readings_of(index),
                        k <= count,
                        out@.len() == k,
                        forall|j: int|
                            0 <= j < k ==> (#[trigger] out@[j]).wf() && out@[j].data() == self
                                && out@[j].index() == self.table.spec_readings_of(index)[j],
                    decreases count - k,
                {
                    let reading = self.table.reading_at(index, k);
                    out.push(self.pinyin(reading));
                    k = k + 1;
                }
            },
        }
        out
    }

    /// Every pinyin of the dictionary in the notation `notation`.
    pub open spec fn spec_strings(&self, notation: PinyinNotation) -> Seq<Seq<char>> {
        Seq::new(
            self.table().count(),
            |i: int| spec_notation(notation, self.table().unicode(i))->0,
        )
    }

    /// Every pinyin of the dictionary in the notation `notation`, without
    /// the repetitions.
    fn unique_strings(&self, notation: PinyinNotation) -> (r: Vec<&str>)
        requires
            self.wf(),
            notation.is_single(),
            self.has_notation(notation),
        ensures
            strs_view(r@) == spec_distinct(self.spec_strings(notation)),
    {
        let n = self.table.pinyins.len();
        let mut all: Vec<&str> = Vec::new();
        let mut i: usize = 0;
        while i < n
            invariant
                self.wf(),
                notation.is_single(),
                self.has_notation(notation),
                n == self.table.count(),
                i <= n,
                all@.len() == i,
                forall|j: int| 0 <= j < i
                    ==> (#[trigger] all@[j])@ == self.spec_strings(notation)[j],
            decreases n - i,
        {
            match self.notation_str(i as u16, notation) {
                Some(s) => {
                    all.push(s);
                },
                None => {
                    proof {
                        assert(false);
                    }
                },
            }
            i = i + 1;
        }
        proof {
            assert(strs_view(all@) =~= self.spec_strings(notation));
            lemma_distinct_dedup(self.spec_strings(notation));
        }
        distinct_strs(dedup_strs(all))
    }

    /// What `match_pinyin_partial` yields.
    pub open spec fn spec_match_pinyin_partial(
        &self,
        notation: PinyinNotation,
        haystack: Seq<char>,
        partial: bool,
    ) -> Seq<(Seq<char>, bool)> {
        spec_filter_partial(spec_distinct(self.spec_strings(notation)), haystack, partial, 0)
    }

    /// What `match_pinyin` yields.
    pub open spec fn spec_match_pinyin(
        &self,
        notation: PinyinNotation,
        haystack: Seq<char>,
    ) -> Seq<Seq<char>,> {
        spec_distinct(spec_filter_prefix(self.spec_strings(notation), haystack, 0))
    }

    /// The pinyins in the notation `notation` with which `haystack[from..]`
    /// starts, each marked `false`; where `partial` is set, also those
    /// that start with all of `haystack[from..]` and go on, each marked
    /// `true`. In the order of the tables, without the repetitions.
    pub fn match_pinyin_partial_in(
        &self,
        notation: PinyinNotation,
        haystack: &[char],
        from: usize,
        partial: bool,
    ) -> (r: Vec<(&str, bool)>)
        requires
            self.wf(),
            notation.is_single(),
            self.has_notation(notation),
            from <= haystack.len(),
        ensures
            r@.len() == self.spec_match_pinyin_partial(
                notation,
                haystack@.skip(from as int),
                partial,
            ).len(),
            forall|k: int|
                0 <= k < r@.len() ==> ((#[trigger] r@[k]).0@, r@[k].1)
                    == self.spec_match_pinyin_partial(
                    notation,
                    haystack@.skip(from as int),
                    partial,
                )[k],
    {
        let strings = self.unique_strings(notation);
        let ghost all = strs_view(strings@);
        let ghost tail = haystack@.skip(from as int);
        let mut out: Vec<(&str, bool)> = Vec::new();
        let mut k: usize = strings.len();
        while k > 0
            invariant
                k <= strings.len(),
                all == strs_view(strings@),
                tail == haystack@.skip(from as int),
                from <= haystack.len(),
                out@.len() == spec_filter_partial(all, tail, partial, k as int).len(),
                forall|j: int|
                    0 <= j < out@.len() ==> ((#[trigger] out@[j]).0@, out@[j].1)
                        == spec_filter_partial(all, tail, partial, k as int)[out@.len() - 1 - j],
            decreases k,
        {
            k = k - 1;
            let s = strings[k];
            let (relation, _) = relate(s, haystack, from);
            let ghost before = out@;
            let ghost rest = spec_filter_partial(all, tail, partial, k + 1);
            let keep = match relation {
                Relation::Exact => Some(false),
                Relation::Prefix => Some(false),
                Relation::Partial => if partial {
                    Some(true)
                } else {
                    None
                },
                Relation::Mismatch => None,
            };
            match keep {
                Some(mark) => {
                    out.push((s, mark));
                    proof {
                        let now = spec_filter_partial(all, tail, partial, k as int);
                        assert(now == seq![(all[k as int], mark)] + rest);
                        assert forall|j: int| 0 <= j < out@.len() implies ((#[trigger] out@[j]).0@,
                            out@[j].1)
                            == now[out@.len() - 1 - j] by {
                            if j < before.len() {
                                assert(out@[j] == before[j]);
                                assert(now[out@.len() - 1 - j] == rest[before.len() - 1 - j]);
                            }
                        }
                    }
                },
                None => {},
            }
        }
        let mut ordered: Vec<(&str, bool)> = Vec::new();
        let n = out.len();
        let mut i: usize = 0;
        let ghost wanted = spec_filter_partial(all, tail, partial, 0);
        while i < n
            invariant
                i <= n,
                n == out@.len(),
                n == wanted.len(),
                ordered@.len() == i,
                forall|j: int|
                    0 <= j < n ==> ((#[trigger] out@[j]).0@, out@[j].1) == wanted[n - 1 - j],
                forall|j: int|
                    0 <= j < i ==> ((#[trigger] ordered@[j]).0@, ordered@[j].1) == wanted[j],
            decreases n - i,
        {
            ordered.push(out[n - 1 - i]);
            i = i + 1;
        }
        ordered
    }

    /// `match_pinyin_partial_in` on the whole of a string.
    pub fn match_pinyin_partial(
        &self,
        notation: PinyinNotation,
        haystack: &str,
        partial: bool,
    ) -> (r: Vec<(&str, bool)>)
        requires
            self.wf(),
            notation.is_single(),
            self.has_notation(notation),
        ensures
            r@.len() == self.spec_match_pinyin_partial(notation, haystack@, partial).len(),
            forall|k: int|
                0 <= k < r@.len() ==> ((#[trigger] r@[k]).0@, r@[k].1)
                    == self.spec_match_pinyin_partial(notation, haystack@, partial)[k],
    {
        let chars = chars_of(haystack);
        proof {
            assert(chars@.skip(0) == chars@);
        }
        self.match_pinyin_partial_in(notation, chars.as_slice(), 0, partial)
    }
}

impl PinyinData {
    /// Of every item that `match_pinyin_partial` yields: it is not empty,
    /// and takes no more bytes than its notation's `max_len`; if marked
    /// `false` it is a prefix of the haystack, else the haystack is a
    /// proper prefix of it.
    pub proof fn lemma_match_item(
        &self,
        notation: PinyinNotation,
        haystack: Seq<char>,
        partial: bool,
        k: int,
    )
        requires
            self.wf(),
            notation.is_single(),
            0 <= k < self.spec_match_pinyin_partial(notation, haystack, partial).len(),
        ensures
            ({
                let item = self.spec_match_pinyin_partial(notation, haystack, partial)[k];
                &&& item.0.len() >= 1
                &&& notation.spec_max_len() is Some
                &&& utf8_len(item.0) <= notation.spec_max_len()->0
                &&& if item.1 {
                    partial && spec_relate(item.0, haystack) is Partial
                } else {
                    spec_relate(item.0, haystack) is Exact || spec_relate(item.0, haystack) is
                        Prefix
                }
            }),
    {
        let strings = self.spec_strings(notation);
        let unique = spec_distinct(strings);
        lemma_filter_partial(unique, haystack, partial, 0);
        lemma_distinct(strings);
        let item = self.spec_match_pinyin_partial(notation, haystack, partial)[k];
        assert(unique.contains(item.0));
        let u = choose|u: int| 0 <= u < unique.len() && unique[u] == item.0;
        assert(strings.contains(unique[u]));
        let i = choose|i: int| 0 <= i < strings.len() && strings[i] == item.0;
        assert(valid_pinyin(self.table.unicode(i)));
        lemma_notation_of_valid(notation, self.table.unicode(i));
    }
}

impl PinyinData {
    /// What `match_pinyin_partial` yields holds no pinyin twice, and holds
    /// every pinyin of the dictionary in the notation that is a prefix of
    /// the haystack, marked `false`; where `partial` is set, also every
    /// one of which the haystack is a proper prefix, marked `true`.
    pub proof fn lemma_match_complete(
        &self,
        notation: PinyinNotation,
        haystack: Seq<char>,
        partial: bool,
    )
        ensures
            forall|i: int, j: int|
                0 <= i < j < self.spec_match_pinyin_partial(notation, haystack, partial).len()
                    ==> self.spec_match_pinyin_partial(notation, haystack, partial)[i].0
                    != self.spec_match_pinyin_partial(notation, haystack, partial)[j].0,
            forall|q: int|
                0 <= q < self.spec_strings(notation).len() ==> (match spec_relate(
                    #[trigger] self.spec_strings(notation)[q],
                    haystack,
                ) {
                    Relation::Exact => self.spec_match_pinyin_partial(
                        notation,
                        haystack,
                        partial,
                    ).contains((self.spec_strings(notation)[q], false)),
                    Relation::Prefix => self.spec_match_pinyin_partial(
                        notation,
                        haystack,
                        partial,
                    ).contains((self.spec_strings(notation)[q], false)),
                    Relation::Partial => partial ==> self.spec_match_pinyin_partial(
                        notation,
                        haystack,
                        partial,
                    ).contains((self.spec_strings(notation)[q], true)),
                    Relation::Mismatch => true,
                }),
    {
        let strings = self.spec_strings(notation);
        let unique = spec_distinct(strings);
        lemma_distinct(strings);
        lemma_filter_partial_exact(unique, haystack, partial, 0);
        assert forall|q: int| 0 <= q < strings.len() implies (match spec_relate(
            #[trigger] strings[q],
            haystack,
        ) {
            Relation::Exact => self.spec_match_pinyin_partial(notation, haystack, partial).contains(
                (strings[q], false),
            ),
            Relation::Prefix => self.spec_match_pinyin_partial(
                notation,
                haystack,
                partial,
            ).contains((strings[q], false)),
            Relation::Partial => partial ==> self.spec_match_pinyin_partial(
                notation,
                haystack,
                partial,
            ).contains((strings[q], true)),
            Relation::Mismatch => true,
        }) by {
            assert(strings.contains(strings[q]));
            assert(unique.contains(strings[q]));
            let u = choose|u: int| 0 <= u < unique.len() && unique[u] == strings[q];
            assert(unique[u] == strings[q]);
        }
    }
}

/// To ask for notations twice is to ask for them once.
pub proof fn lemma_init_idempotent(inited: PinyinNotation, notations: PinyinNotation)
    ensures
        spec_init(spec_init(inited, notations), notations) == spec_init(inited, notations),
        spec_init(inited, notations).spec_contains(notations),
{
    let a = inited.0;
    let b = notations.0;
    assert((a | b) | b == a | b) by (bit_vector);
    assert((a | b) & b == b) by (bit_vector);
    assert((a | (b | 0x2)) | (b | 0x2) == a | (b | 0x2)) by (bit_vector);
    assert((a | (b | 0x2)) & b == b) by (bit_vector);
}

impl PinyinData {
    /// Every pinyin has a form in each of the ten notations. It is not
    /// empty, takes no more than seven bytes, and is in lower case; its
    /// form in `AsciiFirstLetter` is the first letter of its form in
    /// `Ascii`.
    pub proof fn lemma_notation_strings(&self, index: int, notation: PinyinNotation)
        requires
            self.wf(),
            0 <= index < self.table().count(),
            notation.is_single(),
        ensures
            spec_notation(notation, self.table().unicode(index)) is Some,
            spec_notation(notation, self.table().unicode(index))->0.len() >= 1,
            utf8_len(spec_notation(notation, self.table().unicode(index))->0) <= 7,
            mono_lowercase_seq(spec_notation(notation, self.table().unicode(index))->0)
                == spec_notation(notation, self.table().unicode(index))->0,
            spec_notation(PinyinNotation(ASCII_FIRST_LETTER), self.table().unicode(index))->0
                == spec_notation(PinyinNotation(ASCII), self.table().unicode(index))->0.subrange(
                0,
                1,
            ),
    {
        assert(valid_pinyin(self.table.unicode(index)));
        lemma_notation_of_valid(notation, self.table.unicode(index));
        crate::pinyin::table::lemma_first_letter(self.table.unicode(index));
    }
}

impl PinyinData {
    /// The pinyin of the given index of this dictionary.
    pub closed spec fn spec_pinyin(&self, index: u16) -> Pinyin<'_> {
        Pinyin { data: self, index }
    }

    /// Every pinyin of the dictionary, in the order of the table.
    pub fn iter(&self) -> (r: Vec<Pinyin<'_>>)
        requires
            self.wf(),
        ensures
            r@.len() == self.table().count(),
            forall|i: int|
                0 <= i < r@.len() ==> (#[trigger] r@[i]).wf()
                    && r@[i] == self.spec_pinyin(i as u16),
    {
        let n = self.table.pinyins.len();
        let mut out: Vec<Pinyin<'_>> = Vec::new();
        let mut i: usize = 0;
        while i < n
            invariant
                self.wf(),
                n == self.table.count(),
                i <= n,
                out@.len() == i,
                forall|j: int|
                    0 <= j < i ==> (#[trigger] out@[j]).wf()
                        && out@[j] == self.spec_pinyin(j as u16),
            decreases n - i,
        {
            out.push(self.pinyin(i as u16));
            i = i + 1;
        }
        out
    }

    /// Calls `f` on each pinyin of `c`, in the order of the tables, until
    /// it yields a value, and yields that value.
    pub fn get_pinyins_and_try_for_each<'a, T, F: Fn(Pinyin<'a>) -> Option<T>>(
        &'a self,
        c: char,
        f: F,
    ) -> (r: Option<T>)
        requires
            self.wf(),
            forall|p: Pinyin<'a>| p.wf() && p.data() == self ==> #[trigger] f.requires((p,)),
        ensures
            match r {
                Some(v) => exists|k: int|
                    {
                        &&& 0 <= k < self.table().spec_readings(c).len()
                        &&& #[trigger] f.ensures(
                            (self.spec_pinyin(self.table().spec_readings(c)[k]),),
                            Some(v),
                        )
                        &&& forall|j: int|
                            0 <= j < k ==> #[trigger] f.ensures(
                                (self.spec_pinyin(self.table().spec_readings(c)[j]),),
                                None,
                            )
                    },
                None => forall|j: int|
                    0 <= j < self.table().spec_readings(c).len() ==> #[trigger] f.ensures(
                        (self.spec_pinyin(self.table().spec_readings(c)[j]),),
                        None,
                    ),
            },
    {
        match self.table.get_pinyin_index(c) {
            None => None,
            Some(index) => {
                let count = self.table.reading_count(index);
                let mut k: usize = 0;
                while k < count
                    invariant
                        self.wf(),
                        index != NO_PINYIN,
                        self.table.valid_entry(index),
                        count == self.table.spec_readings_of(index).len(),
                        self.table.spec_readings(c) == self.table.spec_readings_of(index),
                        k <= count,
                        forall|p: Pinyin<'a>|
                            p.wf() && p.data() == self ==> #[trigger] f.requires((p,)),
                        forall|j: int|
                            0 <= j < k ==> #[trigger] f.ensures(
                                (self.spec_pinyin(self.table.spec_readings(c)[j]),),
                                None,
                            ),
                    decreases count - k,
                {
                    let reading = self.table.reading_at(index, k);
                    let p = self.pinyin(reading);
                    match f(p) {
                        Some(v) => {
                            return Some(v);
                        },
                        None => {},
                    }
                    k = k + 1;
                }
                None
            },
        }
    }

    /// What `match_pinyin` yields: the pinyins in the notation `notation`
    /// with which `haystack` starts, in the order of the tables, without
    /// the repetitions.
    pub fn match_pinyin(&self, notation: PinyinNotation, haystack: &str) -> (r: Vec<&str>)
        requires
            self.wf(),
            notation.is_single(),
            self.has_notation(notation),
        ensures
            strs_view(r@) == self.spec_match_pinyin(notation, haystack@),
    {
        let hay = chars_of(haystack);
        let n = self.table.pinyins.len();
        let mut kept: Vec<&str> = Vec::new();
        let mut i: usize = n;
        let ghost strings = self.spec_strings(notation);
        proof {
            assert(hay@.skip(0) == hay@);
        }
        while i > 0
            invariant
                self.wf(),
                notation.is_single(),
                self.has_notation(notation),
                n == self.table.count(),
                i <= n,
                hay@ == haystack@,
                strings == self.spec_strings(notation),
                kept@.len() == spec_filter_prefix(strings, hay@, i as int).len(),
                forall|j: int|
                    0 <= j < kept@.len() ==> (#[trigger] kept@[j])@ == spec_filter_prefix(
                        strings,
                        hay@,
                        i as int,
                    )[kept@.len() - 1 - j],
            decreases i,
        {
            i = i - 1;
            let ghost rest = spec_filter_prefix(strings, hay@, i + 1);
            let ghost before = kept@;
            proof {
                assert(hay@.skip(0) == hay@);
            }
            match self.notation_str(i as u16, notation) {
                Some(py) => {
                    let (relation, _) = relate(py, hay.as_slice(), 0);
                    let keep = match relation {
                        Relation::Exact => true,
                        Relation::Prefix => true,
                        _ => false,
                    };
                    if keep {
                        kept.push(py);
                        proof {
                            let now = spec_filter_prefix(strings, hay@, i as int);
                            assert(now == seq![strings[i as int]] + rest);
                            assert forall|j: int| 0 <= j < kept@.len() implies (#[trigger]
                                kept@[j])@
                                == now[kept@.len() - 1 - j] by {
                                if j < before.len() {
                                    assert(kept@[j] == before[j]);
                                    assert(now[kept@.len() - 1 - j] == rest[before.len() - 1 - j]);
                                }
                            }
                        }
                    }
                },
                None => {
                    proof {
                        assert(false);
                    }
                },
            }
        }
        let mut ordered: Vec<&str> = Vec::new();
        let m = kept.len();
        let mut j: usize = 0;
        let ghost wanted = spec_filter_prefix(strings, hay@, 0);
        while j < m
            invariant
                j <= m,
                m == kept@.len(),
                m == wanted.len(),
                ordered@.len() == j,
                forall|q: int| 0 <= q < m ==> (#[trigger] kept@[q])@ == wanted[m - 1 - q],
                forall|q: int| 0 <= q < j ==> (#[trigger] ordered@[q])@ == wanted[q],
            decreases m - j,
        {
            ordered.push(kept[m - 1 - j]);
            j = j + 1;
        }
        proof {
            assert(strs_view(ordered@) =~= wanted);
            lemma_distinct_dedup(wanted);
        }
        distinct_strs(dedup_strs(ordered))
    }
}

impl PinyinData {
    /// Calls `f` on each pinyin of `c`, in the order of the tables.
    pub fn get_pinyins_and_for_each<'a, F: Fn(Pinyin<'a>)>(&'a self, c: char, f: F)
        requires
            self.wf(),
            forall|p: Pinyin<'a>| p.wf() && p.data() == self ==> #[trigger] f.requires((p,)),
        ensures
            forall|j: int|
                0 <= j < self.table().spec_readings(c).len() ==> #[trigger] f.ensures(
                    (self.spec_pinyin(self.table().spec_readings(c)[j]),),
                    (),
                ),
    {
        match self.table.get_pinyin_index(c) {
            None => {},
            Some(index) => {
                let count = self.table.reading_count(index);
                let mut k: usize = 0;
                while k < count
                    invariant
                        self.wf(),
                        index != NO_PINYIN,
                        self.table.valid_entry(index),
                        count == self.table.spec_readings_of(index).len(),
                        self.table.spec_readings(c) == self.table.spec_readings_of(index),
                        k <= count,
                        forall|p: Pinyin<'a>|
                            p.wf() && p.data() == self ==> #[trigger] f.requires((p,)),
                        forall|j: int|
                            0 <= j < k ==> #[trigger] f.ensures(
                                (self.spec_pinyin(self.table.spec_readings(c)[j]),),
                                (),
                            ),
                    decreases count - k,
                {
                    let reading = self.table.reading_at(index, k);
                    f(self.pinyin(reading));
                    k = k + 1;
                }
            },
        }
    }
}

} // verus!
