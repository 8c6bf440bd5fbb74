//! A match in a haystack is a match at the start of what is left of the
//! haystack from where it starts.
use vstd::prelude::*;
use vstd::utf8::{encode_utf8, is_ascii_chars, is_ascii_chars_encode_utf8};
use crate::matcher::ascii::{
    byte_eq, is_first, lemma_first_exists, lemma_first_unique, occurs, spec_first,
};
use crate::matcher::engine::{lemma_lowercase_ascii, Lang, Rules, SpecMatch};
use crate::pinyin::notation::PinyinNotation;
use crate::pinyin::table::spec_notation;
use crate::unicode::case::mono_lowercase;
use crate::unicode::utf8::{lemma_utf8_len_ascii, Relation, spec_relate, utf8_len};

verus! {

/// A match counted from `d` characters later.
pub open spec fn shifted(found: Option<SpecMatch>, d: int) -> Option<SpecMatch> {
    match found {
        Some(m) => Some(SpecMatch { end: m.end - d, partial: m.partial, steps: m.steps }),
        None => None,
    }
}

impl<'a> Rules<'a> {
    /// The match from the character `hi` of a haystack on is the match
    /// from the character `hi - d` of what is left of the haystack after
    /// its first `d` characters.
    pub proof fn lemma_sub_test_shift(&self, hay: Seq<char>, d: int, pi: int, hi: int, lang: Lang)
        requires
            0 <= d <= hi,
            d <= hay.len(),
        ensures
            self.spec_sub_test(hay.skip(d), pi, hi - d, lang) == shifted(
                self.spec_sub_test(hay, pi, hi, lang),
                d,
            ),
        decreases self.spec_pattern().len() - pi, 4int, 0int,
    {
        let rest = hay.skip(d);
        if pi < 0 || pi >= self.spec_pattern().len() || hi >= hay.len() {
        } else if self.plain_matches(hay[hi], pi) {
            if pi + 1 == self.spec_pattern().len() {
            } else {
                self.lemma_sub_test_shift(hay, d, pi + 1, hi + 1, Lang::Any);
            }
        } else if (hay[hi] as u32) < 128 {
        } else {
            assert(rest.skip(hi - d) == hay.skip(hi));
            if self.spec_romaji() is Some && lang != Lang::Pinyin {
                self.lemma_try_romaji_shift(
                    hay,
                    d,
                    pi,
                    hi,
                    self.spec_romaji()->0.config.romanizer.spec_romanize(hay.skip(hi)),
                    0,
                );
            }
            if self.spec_pinyin() is Some && lang != Lang::Romaji {
                self.lemma_try_readings_shift(
                    hay,
                    d,
                    pi,
                    hi + 1,
                    self.spec_pinyin()->0.config.data.table().spec_readings(hay[hi]),
                    0,
                );
            }
        }
    }

    proof fn lemma_step_shift(
        &self,
        hay: Seq<char>,
        d: int,
        pi: int,
        hi_next: int,
        reading: Seq<char>,
        lang: Lang,
    )
        requires
            0 <= d <= hi_next,
            d <= hay.len(),
        ensures
            self.spec_step(hay.skip(d), pi, hi_next - d, reading, lang).0 == self.spec_step(
                hay,
                pi,
                hi_next,
                reading,
                lang,
            ).0,
            self.spec_step(hay.skip(d), pi, hi_next - d, reading, lang).1 == shifted(
                self.spec_step(hay, pi, hi_next, reading, lang).1,
                d,
            ),
        decreases self.spec_pattern().len() - pi, 0int, 0int,
    {
        if pi >= 0 {
            match spec_relate(reading, self.tail(lang, pi)) {
                Relation::Prefix => {
                    if 0 < reading.len() && pi + reading.len() < self.spec_pattern().len() {
                        self.lemma_sub_test_shift(
                            hay,
                            d,
                            pi + reading.len(),
                            hi_next,
                            self.next_lang(lang),
                        );
                    }
                },
                _ => {},
            }
        }
    }

    proof fn lemma_try_group_shift(
        &self,
        hay: Seq<char>,
        d: int,
        pi: int,
        hi_next: int,
        reading: u16,
        group: Seq<PinyinNotation>,
        j: int,
        breaks: bool,
    )
        requires
            0 <= d <= hi_next,
            d <= hay.len(),
        ensures
            self.spec_try_group(hay.skip(d), pi, hi_next - d, reading, group, j, breaks)
                == shifted(self.spec_try_group(hay, pi, hi_next, reading, group, j, breaks), d),
        decreases self.spec_pattern().len() - pi, 1int, group.len() - j,
    {
        if j < 0 || j >= group.len() || self.spec_pinyin() is None {
        } else {
            let text = match spec_notation(
                group[j],
                self.spec_pinyin()->0.config.data.table().unicode(reading as int),
            ) {
                Some(s) => s,
                None => Seq::empty(),
            };
            self.lemma_step_shift(hay, d, pi, hi_next, text, Lang::Pinyin);
            self.lemma_try_group_shift(hay, d, pi, hi_next, reading, group, j + 1, breaks);
        }
    }

    proof fn lemma_try_reading_shift(
        &self,
        hay: Seq<char>,
        d: int,
        pi: int,
        hi_next: int,
        reading: u16,
    )
        requires
            0 <= d <= hi_next,
            d <= hay.len(),
        ensures
            self.spec_try_reading(hay.skip(d), pi, hi_next - d, reading) == shifted(
                self.spec_try_reading(hay, pi, hi_next, reading),
                d,
            ),
        decreases self.spec_pattern().len() - pi, 2int, 0int,
    {
        if self.spec_pinyin() is Some {
            let rules = self.spec_pinyin()->0;
            self.lemma_try_group_shift(hay, d, pi, hi_next, reading, rules.prefix_group, 0, true);
            self.lemma_try_group_shift(hay, d, pi, hi_next, reading, rules.others, 0, false);
        }
    }

    proof fn lemma_try_readings_shift(
        &self,
        hay: Seq<char>,
        d: int,
        pi: int,
        hi_next: int,
        readings: Seq<u16>,
        k: int,
    )
        requires
            0 <= d <= hi_next,
            d <= hay.len(),
        ensures
            self.spec_try_readings(hay.skip(d), pi, hi_next - d, readings, k) == shifted(
                self.spec_try_readings(hay, pi, hi_next, readings, k),
                d,
            ),
        decreases self.spec_pattern().len() - pi, 3int, readings.len() - k,
    {
        if 0 <= k < readings.len() {
            self.lemma_try_reading_shift(hay, d, pi, hi_next, readings[k]);
            self.lemma_try_readings_shift(hay, d, pi, hi_next, readings, k + 1);
        }
    }

    proof fn lemma_try_romaji_shift(
        &self,
        hay: Seq<char>,
        d: int,
        pi: int,
        hi: int,
        readings: Seq<(nat, nat, Seq<char>)>,
        k: int,
    )
        requires
            0 <= d <= hi,
            d <= hay.len(),
        ensures
            self.spec_try_romaji(hay.skip(d), pi, hi - d, readings, k) == shifted(
                self.spec_try_romaji(hay, pi, hi, readings, k),
                d,
            ),
        decreases self.spec_pattern().len() - pi, 3int, readings.len() - k,
    {
        if 0 <= k < readings.len() {
            self.lemma_step_shift(hay, d, pi, hi + readings[k].0, readings[k].2, Lang::Romaji);
            self.lemma_try_romaji_shift(hay, d, pi, hi, readings, k + 1);
        }
    }
}

impl<'a> Rules<'a> {
    /// Whether `test` yields `found` on what is left of `hay` from its
    /// character `k` on. Nothing is said of what is ASCII throughout
    /// where a character of the pattern that is not ASCII folds to one
    /// that is.
    pub open spec fn tests_at(
        &self,
        hay: Seq<char>,
        k: int,
        found: Option<(int, int, bool)>,
    ) -> bool {
        !is_ascii_chars(hay.skip(k)) || self.folds_apart() ==> self.spec_test(hay.skip(k), false)
            == found
    }

    /// What `test` yields on what is left of a haystack from its
    /// character `k` on: the match of the pattern from that character on,
    /// if enough bytes are left.
    pub proof fn lemma_test_of_rest(&self, hay: Seq<char>, k: int)
        requires
            self.romaji_wf(),
            self.pattern.len() > 0,
            0 <= k < hay.len(),
            !is_ascii_chars(hay.skip(k)) || self.folds_apart(),
        ensures
            self.spec_test(hay.skip(k), false) == (if utf8_len(hay.skip(k))
                < self.min_haystack_len {
                None
            } else {
                match self.spec_sub_test(hay, 0, k, Lang::Any) {
                    Some(m) => Some((0int, utf8_len(hay.subrange(k, m.end)) as int, m.partial)),
                    None => None,
                }
            }),
    {
        self.lemma_sub_test_shift(hay, k, 0, k, Lang::Any);
        self.lemma_sub_test_fits(hay, 0, k, Lang::Any);
        if is_ascii_chars(hay.skip(k)) {
            self.lemma_test_ascii_is_sub_test(hay.skip(k));
        }
        match self.spec_sub_test(hay, 0, k, Lang::Any) {
            Some(m) => {
                assert(hay.skip(k).subrange(0, m.end - k) == hay.subrange(k, m.end));
            },
            None => {},
        }
    }

    /// In a haystack that is not ASCII throughout, where matches may
    /// start anywhere: what `find` yields starts at the first character
    /// from which `test` yields a match, and is that match; `find` yields
    /// nothing if and only if `test` yields nothing from every character.
    /// See `tests_at` for what is left out.
    pub proof fn lemma_find_is_first_test(&self, hay: Seq<char>)
        requires
            self.romaji_wf(),
            self.pattern.len() > 0,
            !self.starts_with,
            !is_ascii_chars(hay),
        ensures
            match self.spec_find(hay, false) {
                Some((start, end, partial)) => exists|k: int|
                    {
                        &&& 0 <= k < hay.len()
                        &&& start == utf8_len(hay.take(k))
                        &&& #[trigger] self.tests_at(hay, k, Some((0, end - start, partial)))
                        &&& forall|j: int| 0 <= j < k ==> #[trigger] self.tests_at(hay, j, None)
                    },
                None => forall|j: int|
                    0 <= j < hay.len() ==> #[trigger] self.tests_at(hay, j, None),
            },
    {
        self.lemma_find_is_first(hay, 0);
        match self.spec_find_from(hay, 0) {
            Some(found) => {
                let k = choose|k: int|
                    {
                        &&& 0 <= k
                        &&& #[trigger] self.found_at(hay, k, found)
                        &&& forall|j: int| 0 <= j < k ==> #[trigger] self.fails_at(hay, j)
                    };
                if !is_ascii_chars(hay.skip(k)) || self.folds_apart() {
                    self.lemma_test_of_rest(hay, k);
                }
                assert(self.tests_at(hay, k, Some((0, found.1 - found.0, found.2))));
                assert forall|j: int| 0 <= j < k implies #[trigger] self.tests_at(hay, j, None) by {
                    assert(self.fails_at(hay, j));
                    if !is_ascii_chars(hay.skip(j)) || self.folds_apart() {
                        self.lemma_test_of_rest(hay, j);
                    }
                }
            },
            None => {
                assert forall|j: int| 0 <= j < hay.len() implies #[trigger] self.tests_at(
                    hay,
                    j,
                    None,
                ) by {
                    assert(self.fails_at(hay, j));
                    if !is_ascii_chars(hay.skip(j)) || self.folds_apart() {
                        self.lemma_test_of_rest(hay, j);
                    }
                }
            },
        }
    }
}

/// The bytes of what is left of an ASCII haystack are what is left of its
/// bytes, and a pattern stands at their start where it stands in the
/// haystack at that place.
pub proof fn lemma_ascii_rest(pattern: Seq<u8>, case_insensitive: bool, hay: Seq<char>, j: int)
    requires
        is_ascii_chars(hay),
        0 <= j <= hay.len(),
    ensures
        is_ascii_chars(hay.skip(j)),
        encode_utf8(hay.skip(j)) == encode_utf8(hay).skip(j),
        encode_utf8(hay).len() == hay.len(),
        utf8_len(hay.skip(j)) == hay.len() - j,
        occurs(pattern, case_insensitive, encode_utf8(hay.skip(j)), 0) == occurs(
            pattern,
            case_insensitive,
            encode_utf8(hay),
            j,
        ),
{
    let rest = hay.skip(j);
    let bytes = encode_utf8(hay);
    assert(is_ascii_chars(rest)) by {
        assert forall|i: int| 0 <= i < rest.len() implies '\0' <= #[trigger] rest[i]
            <= '\u{7f}' by {
            assert(rest[i] == hay[i + j]);
        }
    }
    is_ascii_chars_encode_utf8(hay);
    is_ascii_chars_encode_utf8(rest);
    lemma_utf8_len_ascii(rest);
    assert(encode_utf8(rest) =~= bytes.skip(j)) by {
        assert forall|i: int| 0 <= i < rest.len() implies encode_utf8(rest)[i]
            == bytes.skip(j)[i] by {
            assert(rest[i] == hay[i + j]);
        }
    }
    let tail = bytes.skip(j);
    if occurs(pattern, case_insensitive, tail, 0) {
        assert forall|k: int| 0 <= k < pattern.len() implies byte_eq(
            #[trigger] bytes[j + k],
            pattern[k],
            case_insensitive,
        ) by {
            assert(tail[0 + k] == bytes[j + k]);
        }
    }
    if occurs(pattern, case_insensitive, bytes, j) {
        assert forall|k: int| 0 <= k < pattern.len() implies byte_eq(
            #[trigger] tail[0 + k],
            pattern[k],
            case_insensitive,
        ) by {
            assert(tail[0 + k] == bytes[j + k]);
        }
    }
}

impl<'a> Rules<'a> {
    /// In a haystack that is ASCII throughout, where matches may start
    /// anywhere: what `find` yields starts at the first place from which
    /// `test` yields a match, and is that match; `find` yields nothing if
    /// and only if `test` yields nothing from every place.
    pub proof fn lemma_find_is_first_test_ascii(&self, hay: Seq<char>)
        requires
            self.pattern.len() > 0,
            !self.starts_with,
            is_ascii_chars(hay),
            self.min_haystack_len <= utf8_len(self.spec_pattern_lowercase()),
        ensures
            match self.spec_find(hay, false) {
                Some((start, end, partial)) => {
                    &&& 0 <= start <= hay.len()
                    &&& self.spec_test(hay.skip(start), false) == Some((0int, end - start, partial))
                    &&& forall|j: int|
                        0 <= j < start ==> (#[trigger] self.spec_test(hay.skip(j), false)) is None
                },
                None => forall|j: int|
                    0 <= j <= hay.len() ==> (#[trigger] self.spec_test(hay.skip(j), false)) is None,
            },
    {
        let bytes = encode_utf8(hay);
        let pattern = encode_utf8(self.pattern);
        if self.matches_ascii() {
            let ci = self.plain->0.case_insensitive;
            let n = pattern.len() as int;
            is_ascii_chars_encode_utf8(self.pattern);
            lemma_lowercase_ascii(self.pattern);
            is_ascii_chars_encode_utf8(hay);
            assert forall|j: int| 0 <= j <= hay.len() implies #[trigger] self.spec_test(
                hay.skip(j),
                false,
            ) == (if occurs(pattern, ci, bytes, j) && (!self.ends_with || n == hay.len() - j) {
                Some((0int, n, false))
            } else {
                None
            }) by {
                lemma_ascii_rest(pattern, ci, hay, j);
            }
            match self.spec_find(hay, false) {
                Some((start, end, partial)) => {
                    if !self.ends_with {
                        let first = spec_first(pattern, ci, false, bytes, 0);
                        if exists|found: Option<(int, int)>|
                            is_first(pattern, ci, false, bytes, 0, found) {
                            assert(is_first(pattern, ci, false, bytes, 0, first));
                        }
                        assert(occurs(pattern, ci, bytes, start));
                        assert(end == start + n);
                    } else {
                        assert(occurs(pattern, ci, bytes, start));
                        assert(start == hay.len() - n && end == hay.len());
                    }
                    assert(self.spec_test(hay.skip(start), false) == Some((0int, n, false)));
                    assert forall|j: int| 0 <= j < start implies (#[trigger] self.spec_test(
                        hay.skip(j),
                        false,
                    )) is None by {
                        if !self.ends_with {
                            assert(!occurs(pattern, ci, bytes, j));
                        }
                    }
                },
                None => {
                    assert forall|j: int| 0 <= j <= hay.len() implies (#[trigger] self.spec_test(
                        hay.skip(j),
                        false,
                    )) is None by {
                        if !self.ends_with {
                            if occurs(pattern, ci, bytes, j) {
                                lemma_first_exists(pattern, ci, bytes, 0, j);
                                let found = choose|found: Option<(int, int)>|
                                    found is Some && #[trigger] is_first(
                                        pattern,
                                        ci,
                                        false,
                                        bytes,
                                        0,
                                        found,
                                    );
                                lemma_first_unique(
                                    pattern,
                                    ci,
                                    false,
                                    bytes,
                                    0,
                                    found,
                                );
                            }
                        } else if occurs(pattern, ci, bytes, j) && n == hay.len() - j {
                            assert(j == hay.len() - n);
                        }
                    }
                },
            }
        } else {
            assert forall|j: int| 0 <= j <= hay.len() implies (#[trigger] self.spec_test(
                hay.skip(j),
                false,
            )) is None by {
                lemma_ascii_rest(pattern, true, hay, j);
            }
        }
    }
}

impl<'a> Rules<'a> {
    /// Whether the character `pi + t` of the pattern is matched as itself
    /// by the character `hi + t` of `hay`.
    pub open spec fn plain_at(&self, hay: Seq<char>, pi: int, hi: int, t: int) -> bool {
        self.plain_matches(hay[hi + t], pi + t)
    }

    /// Whether the pattern from its `pi`-th character on stands in `hay`
    /// from the character `hi` on, each character matched as itself, and
    /// ends where `hay` ends if matches have to end there.
    pub open spec fn plain_run(&self, hay: Seq<char>, pi: int, hi: int) -> bool {
        &&& hi + (self.pattern.len() - pi) <= hay.len()
        &&& forall|t: int|
            0 <= t < self.pattern.len() - pi ==> #[trigger] self.plain_at(hay, pi, hi, t)
        &&& self.ends_with ==> hi + (self.pattern.len() - pi) == hay.len()
    }

    /// In a haystack that is ASCII throughout a pattern is matched only
    /// character by character as itself: no ASCII character is read as
    /// pinyin or romaji.
    pub proof fn lemma_sub_test_ascii(&self, hay: Seq<char>, pi: int, hi: int, lang: Lang)
        requires
            is_ascii_chars(hay),
            0 <= pi < self.pattern.len(),
            0 <= hi,
        ensures
            match self.spec_sub_test(hay, pi, hi, lang) {
                Some(m) => self.plain_run(hay, pi, hi) && m.end == hi + (self.pattern.len() - pi)
                    && !m.partial,
                None => !self.plain_run(hay, pi, hi),
            },
        decreases self.pattern.len() - pi,
    {
        let n = self.pattern.len() as int;
        if hi >= hay.len() {
        } else if self.plain_matches(hay[hi], pi) {
            if pi + 1 == n {
                assert forall|t: int| 0 <= t < n - pi implies #[trigger] self.plain_at(
                    hay,
                    pi,
                    hi,
                    t,
                ) by {}
            } else {
                self.lemma_sub_test_ascii(hay, pi + 1, hi + 1, Lang::Any);
                if self.plain_run(hay, pi + 1, hi + 1) {
                    assert forall|t: int| 0 <= t < n - pi implies #[trigger] self.plain_at(
                        hay,
                        pi,
                        hi,
                        t,
                    ) by {
                        if t > 0 {
                            assert(self.plain_at(hay, pi + 1, hi + 1, t - 1));
                        }
                    }
                } else if self.plain_run(hay, pi, hi) {
                    assert forall|t: int| 0 <= t < n - (pi + 1) implies #[trigger] self.plain_at(
                        hay,
                        pi + 1,
                        hi + 1,
                        t,
                    ) by {
                        assert(self.plain_at(hay, pi, hi, t + 1));
                    }
                }
            }
        } else {
            assert('\0' <= hay[hi] <= '\u{7f}');
            if self.plain_run(hay, pi, hi) {
                assert(self.plain_at(hay, pi, hi, 0));
            }
        }
    }

    /// Whether no character of the pattern that is not ASCII is matched
    /// as itself by an ASCII character: where characters are matched as
    /// themselves without regard to case, no character that is not ASCII
    /// folds to one that is.
    pub open spec fn folds_apart(&self) -> bool {
        self.plain is Some && self.plain->0.case_insensitive ==> forall|q: int|
            0 <= q < self.pattern.len() && (self.pattern[q] as u32) >= 128 ==> (
            #[trigger] self.spec_pattern_lowercase()[q] as u32) >= 128
    }

    /// On a haystack that is ASCII throughout, `test` yields what the
    /// match of the pattern from the first character on gives, if enough
    /// bytes are there: to look for the bytes of an ASCII pattern is to
    /// match it character by character.
    pub proof fn lemma_test_ascii_is_sub_test(&self, hay: Seq<char>)
        requires
            is_ascii_chars(hay),
            self.pattern.len() > 0,
            self.folds_apart(),
        ensures
            self.spec_test(hay, false) == (if utf8_len(hay) < self.min_haystack_len {
                None
            } else {
                match self.spec_sub_test(hay, 0, 0, Lang::Any) {
                    Some(m) => Some((0int, utf8_len(hay.subrange(0, m.end)) as int, m.partial)),
                    None => None,
                }
            }),
    {
        let n = self.pattern.len() as int;
        let bytes = encode_utf8(hay);
        let pattern = encode_utf8(self.pattern);
        self.lemma_sub_test_ascii(hay, 0, 0, Lang::Any);
        is_ascii_chars_encode_utf8(hay);
        if self.matches_ascii() {
            let ci = self.plain->0.case_insensitive;
            is_ascii_chars_encode_utf8(self.pattern);
            assert forall|t: int| 0 <= t < n && t < hay.len() implies #[trigger] self.plain_at(
                hay,
                0,
                0,
                t,
            ) == byte_eq(bytes[0 + t], pattern[t], ci) by {
                let hc = hay[t];
                let pc = self.pattern[t];
                assert('\0' <= hc <= '\u{7f}');
                assert('\0' <= pc <= '\u{7f}');
                assert(bytes[t] == hc as u8);
                assert(pattern[t] == pc as u8);
                assert(self.spec_pattern_lowercase()[t] == mono_lowercase(pc));
            }
            if self.plain_run(hay, 0, 0) {
                assert forall|k: int| 0 <= k < pattern.len() implies byte_eq(
                    #[trigger] bytes[0 + k],
                    pattern[k],
                    ci,
                ) by {
                    assert(self.plain_at(hay, 0, 0, k));
                }
                assert(hay.subrange(0, n) =~= hay.take(n));
                assert(is_ascii_chars(hay.take(n)));
                lemma_utf8_len_ascii(hay.take(n));
            }
            if occurs(pattern, ci, bytes, 0) && (!self.ends_with || pattern.len() == bytes.len()) {
                assert forall|t: int| 0 <= t < n implies #[trigger] self.plain_at(hay, 0, 0, t) by {
                    assert(byte_eq(bytes[0 + t], pattern[t], ci));
                }
            }
        } else if self.plain is Some {
            if self.plain_run(hay, 0, 0) {
                let q = choose|q: int|
                    0 <= q < n && !('\0' <= #[trigger] self.pattern[q] <= '\u{7f}');
                assert(self.plain_at(hay, 0, 0, q));
                assert('\0' <= hay[q] <= '\u{7f}');
                assert((self.pattern[q] as u32) >= 128);
                assert(self.spec_pattern_lowercase()[q] == mono_lowercase(self.pattern[q]));
            }
        } else {
            if self.plain_run(hay, 0, 0) {
                assert(self.plain_at(hay, 0, 0, 0));
            }
        }
    }
}

} // verus!
