//! What holds of every match.
use vstd::prelude::*;
use vstd::utf8::{encode_utf8, is_ascii_chars};
use crate::matcher::ascii::{is_first, lemma_first_unique, spec_first};
use crate::matcher::engine::{IbMatcher, Lang, Rules, SpecMatch, Step};
use crate::matcher::pinyin::{is_prefix_group, prefix_rank};
use crate::pinyin::notation::PinyinNotation;
use crate::pinyin::table::{lemma_notation_of_valid, spec_notation, valid_pinyin};
use crate::unicode::utf8::{
    is_prefix, lemma_utf8_len_bounds, lemma_utf8_len_is_encoded_len, lemma_utf8_len_split,
    Relation, spec_relate, utf8_len,
};

verus! {

/// Whether no step that reads pinyin stands next to one that reads
/// romaji: between the two there is a step that reads a character as
/// itself.
pub open spec fn one_language_between_plain(steps: Seq<Step>) -> bool {
    forall|k: int| 0 <= k < steps.len() - 1 ==> !#[trigger] mixes_at(steps, k)
}

/// Whether the step `k` reads pinyin and the next one romaji, or the other
/// way round.
pub open spec fn mixes_at(steps: Seq<Step>, k: int) -> bool {
    ||| steps[k] is Romaji && steps[k + 1] is Pinyin
    ||| steps[k] is Pinyin && steps[k + 1] is Romaji
}

/// Whether `steps` may be the steps of a match whose first step may read
/// in `lang`: there is a first step, and it does not read the other
/// language; and languages are not mixed between plain steps.
pub open spec fn steps_in(steps: Seq<Step>, lang: Lang) -> bool {
    &&& steps.len() >= 1
    &&& one_language_between_plain(steps)
    &&& lang is Romaji ==> !(steps[0] is Pinyin)
    &&& lang is Pinyin ==> !(steps[0] is Romaji)
}

/// The steps of a match that was found, or nothing to say.
pub open spec fn found_in(found: Option<SpecMatch>, lang: Lang) -> bool {
    match found {
        Some(m) => steps_in(m.steps, lang),
        None => true,
    }
}

proof fn lemma_prepend(step: Step, steps: Seq<Step>, lang: Lang)
    requires
        steps_in(
            steps,
            match step {
                Step::Plain => Lang::Any,
                Step::Pinyin => Lang::Pinyin,
                Step::Romaji => Lang::Romaji,
            },
        ),
        lang is Romaji ==> !(step is Pinyin),
        lang is Pinyin ==> !(step is Romaji),
    ensures
        steps_in(seq![step] + steps, lang),
{
    let all = seq![step] + steps;
    assert forall|k: int| 0 <= k < all.len() - 1 implies !#[trigger] mixes_at(all, k) by {
        if k > 0 {
            assert(all[k] == steps[k - 1]);
            assert(all[k + 1] == steps[k]);
            assert(!mixes_at(steps, k - 1));
        } else {
            assert(all[0] == step);
            assert(all[1] == steps[0]);
        }
    }
}

impl<'a> IbMatcher<'a> {
    /// Where languages are not to be mixed, a match does not pass from
    /// pinyin to romaji, nor from romaji to pinyin, but by way of a
    /// character that is matched as itself; and a match whose first
    /// character may be read in one language only does not begin with a
    /// reading in the other.
    pub proof fn lemma_languages_not_mixed(&self, hay: Seq<char>, pi: int, hi: int, lang: Lang)
        requires
            !self.spec_mix_lang(),
        ensures
            found_in(self.spec_sub_test(hay, pi, hi, lang), lang),
        decreases self.spec_pattern().len() - pi, 4int, 0int,
    {
        if pi < 0 || pi >= self.spec_pattern().len() || hi < 0 || hi >= hay.len() {
        } else if self.plain_matches(hay[hi], pi) {
            if pi + 1 == self.spec_pattern().len() {
            } else {
                self.lemma_languages_not_mixed(hay, pi + 1, hi + 1, Lang::Any);
                match self.spec_sub_test(hay, pi + 1, hi + 1, Lang::Any) {
                    Some(m) => {
                        lemma_prepend(Step::Plain, m.steps, lang);
                    },
                    None => {},
                }
            }
        } else if (hay[hi] as u32) < 128 {
        } else {
            if self.spec_romaji() is Some && lang != Lang::Pinyin {
                self.lemma_try_romaji(
                    hay,
                    pi,
                    hi,
                    self.spec_romaji()->0.config.romanizer.spec_romanize(hay.skip(hi)),
                    0,
                );
            }
            if self.spec_pinyin() is Some && lang != Lang::Romaji {
                self.lemma_try_readings(
                    hay,
                    pi,
                    hi + 1,
                    self.spec_pinyin()->0.config.data.table().spec_readings(hay[hi]),
                    0,
                );
            }
        }
    }

    proof fn lemma_step(
        &self,
        hay: Seq<char>,
        pi: int,
        hi_next: int,
        reading: Seq<char>,
        lang: Lang,
    )
        requires
            !self.spec_mix_lang(),
            !(lang is Any),
        ensures
            found_in(self.spec_step(hay, pi, hi_next, reading, lang).1, lang),
        decreases self.spec_pattern().len() - pi, 0int, 0int,
    {
        if pi >= 0 {
            match spec_relate(reading, self.tail(lang, pi)) {
                Relation::Prefix => {
                    if 0 < reading.len() && pi + reading.len() < self.spec_pattern().len() {
                        self.lemma_languages_not_mixed(hay, pi + reading.len(), hi_next, lang);
                        match self.spec_sub_test(hay, pi + reading.len(), hi_next, lang) {
                            Some(m) => {
                                lemma_prepend(
                                    crate::matcher::engine::step_of(lang),
                                    m.steps,
                                    lang,
                                );
                            },
                            None => {},
                        }
                    }
                },
                _ => {},
            }
        }
    }

    proof fn lemma_try_group(
        &self,
        hay: Seq<char>,
        pi: int,
        hi_next: int,
        reading: u16,
        group: Seq<PinyinNotation>,
        j: int,
        breaks: bool,
    )
        requires
            !self.spec_mix_lang(),
        ensures
            found_in(
                self.spec_try_group(hay, pi, hi_next, reading, group, j, breaks),
                Lang::Pinyin,
            ),
        decreases self.spec_pattern().len() - pi, 1int, group.len() - j,
    {
        if j < 0 || j >= group.len() || self.spec_pinyin() is None {
        } else {
            let text = match spec_notation(
                group[j],
                self.spec_pinyin()->0.config.data.table().unicode(reading as int),
            ) {
                Some(s) => s,
                None => Seq::empty(),
            };
            self.lemma_step(hay, pi, hi_next, text, Lang::Pinyin);
            self.lemma_try_group(hay, pi, hi_next, reading, group, j + 1, breaks);
        }
    }

    proof fn lemma_try_reading(&self, hay: Seq<char>, pi: int, hi_next: int, reading: u16)
        requires
            !self.spec_mix_lang(),
        ensures
            found_in(self.spec_try_reading(hay, pi, hi_next, reading), Lang::Pinyin),
        decreases self.spec_pattern().len() - pi, 2int, 0int,
    {
        if self.spec_pinyin() is Some {
            self.lemma_try_group(
                hay,
                pi,
                hi_next,
                reading,
                self.spec_pinyin()->0.prefix_group,
                0,
                true,
            );
            self.lemma_try_group(
                hay,
                pi,
                hi_next,
                reading,
                self.spec_pinyin()->0.others,
                0,
                false,
            );
        }
    }

    proof fn lemma_try_readings(
        &self,
        hay: Seq<char>,
        pi: int,
        hi_next: int,
        readings: Seq<u16>,
        k: int,
    )
        requires
            !self.spec_mix_lang(),
        ensures
            found_in(self.spec_try_readings(hay, pi, hi_next, readings, k), Lang::Pinyin),
        decreases self.spec_pattern().len() - pi, 3int, readings.len() - k,
    {
        if 0 <= k < readings.len() {
            self.lemma_try_reading(hay, pi, hi_next, readings[k]);
            self.lemma_try_readings(hay, pi, hi_next, readings, k + 1);
        }
    }

    proof fn lemma_try_romaji(
        &self,
        hay: Seq<char>,
        pi: int,
        hi: int,
        readings: Seq<(nat, nat, Seq<char>)>,
        k: int,
    )
        requires
            !self.spec_mix_lang(),
        ensures
            found_in(self.spec_try_romaji(hay, pi, hi, readings, k), Lang::Romaji),
        decreases self.spec_pattern().len() - pi, 3int, readings.len() - k,
    {
        if 0 <= k < readings.len() {
            self.lemma_step(hay, pi, hi + readings[k].0, readings[k].2, Lang::Romaji);
            self.lemma_try_romaji(hay, pi, hi, readings, k + 1);
        }
    }
}

impl<'a> Rules<'a> {
    /// Whether a partial pattern is accepted in one of the languages.
    pub open spec fn partial_allowed(&self) -> bool {
        self.lang_partial(Lang::Pinyin) || self.lang_partial(Lang::Romaji)
    }

    /// Whether a match, if there is one, ends at the character `low` of
    /// `hay` or later and within `hay`, at the end of `hay` where matches
    /// have to end there, and is partial only where a partial pattern is
    /// accepted.
    pub open spec fn fits(&self, hay: Seq<char>, low: int, found: Option<SpecMatch>) -> bool {
        match found {
            Some(m) => {
                &&& low <= m.end <= hay.len()
                &&& self.ends_with ==> m.end == hay.len()
                &&& m.partial ==> self.partial_allowed()
            },
            None => true,
        }
    }

    /// The romanizer, where there is one, is well formed.
    pub open spec fn romaji_wf(&self) -> bool {
        self.romaji is Some ==> self.romaji->0.config.wf()
    }

    /// A match from the character `hi` of a haystack on reads at least
    /// that character and no more than there are; where matches have to
    /// end at the end of the haystack, it ends there; and it is partial
    /// only where a partial pattern is accepted.
    pub proof fn lemma_sub_test_fits(&self, hay: Seq<char>, pi: int, hi: int, lang: Lang)
        requires
            self.romaji_wf(),
        ensures
            self.fits(hay, hi + 1, self.spec_sub_test(hay, pi, hi, lang)),
        decreases self.spec_pattern().len() - pi, 4int, 0int,
    {
        if pi < 0 || pi >= self.spec_pattern().len() || hi < 0 || hi >= hay.len() {
        } else if self.plain_matches(hay[hi], pi) {
            if pi + 1 == self.spec_pattern().len() {
            } else {
                self.lemma_sub_test_fits(hay, pi + 1, hi + 1, Lang::Any);
            }
        } else if (hay[hi] as u32) < 128 {
        } else {
            if self.spec_romaji() is Some && lang != Lang::Pinyin {
                let romanizer = self.spec_romaji()->0.config.romanizer;
                let readings = romanizer.spec_romanize(hay.skip(hi));
                assert forall|k: int| 0 <= k < readings.len() implies 1 <= (
                #[trigger] readings[k]).0 && hi + readings[k].0 <= hay.len() by {
                    romanizer.lemma_romanize(hay.skip(hi), k);
                }
                self.lemma_try_romaji_fits(hay, pi, hi, readings, 0);
            }
            if self.spec_pinyin() is Some && lang != Lang::Romaji {
                self.lemma_try_readings_fits(
                    hay,
                    pi,
                    hi + 1,
                    self.spec_pinyin()->0.config.data.table().spec_readings(hay[hi]),
                    0,
                );
            }
        }
    }

    proof fn lemma_step_fits(
        &self,
        hay: Seq<char>,
        pi: int,
        hi_next: int,
        reading: Seq<char>,
        lang: Lang,
    )
        requires
            self.romaji_wf(),
            hi_next <= hay.len(),
        ensures
            self.fits(hay, hi_next, self.spec_step(hay, pi, hi_next, reading, lang).1),
        decreases self.spec_pattern().len() - pi, 0int, 0int,
    {
        if pi >= 0 {
            match spec_relate(reading, self.tail(lang, pi)) {
                Relation::Prefix => {
                    if 0 < reading.len() && pi + reading.len() < self.spec_pattern().len() {
                        self.lemma_sub_test_fits(
                            hay,
                            pi + reading.len(),
                            hi_next,
                            self.next_lang(lang),
                        );
                    }
                },
                _ => {},
            }
        }
    }

    proof fn lemma_try_group_fits(
        &self,
        hay: Seq<char>,
        pi: int,
        hi_next: int,
        reading: u16,
        group: Seq<PinyinNotation>,
        j: int,
        breaks: bool,
    )
        requires
            self.romaji_wf(),
            hi_next <= hay.len(),
        ensures
            self.fits(
                hay,
                hi_next,
                self.spec_try_group(hay, pi, hi_next, reading, group, j, breaks),
            ),
        decreases self.spec_pattern().len() - pi, 1int, group.len() - j,
    {
        if j < 0 || j >= group.len() || self.spec_pinyin() is None {
        } else {
            let text = match spec_notation(
                group[j],
                self.spec_pinyin()->0.config.data.table().unicode(reading as int),
            ) {
                Some(s) => s,
                None => Seq::empty(),
            };
            self.lemma_step_fits(hay, pi, hi_next, text, Lang::Pinyin);
            self.lemma_try_group_fits(hay, pi, hi_next, reading, group, j + 1, breaks);
        }
    }

    proof fn lemma_try_readings_fits(
        &self,
        hay: Seq<char>,
        pi: int,
        hi_next: int,
        readings: Seq<u16>,
        k: int,
    )
        requires
            self.romaji_wf(),
            hi_next <= hay.len(),
        ensures
            self.fits(hay, hi_next, self.spec_try_readings(hay, pi, hi_next, readings, k)),
        decreases self.spec_pattern().len() - pi, 3int, readings.len() - k,
    {
        if 0 <= k < readings.len() {
            self.lemma_try_reading_fits(hay, pi, hi_next, readings[k]);
            self.lemma_try_readings_fits(hay, pi, hi_next, readings, k + 1);
        }
    }

    proof fn lemma_try_reading_fits(&self, hay: Seq<char>, pi: int, hi_next: int, reading: u16)
        requires
            self.romaji_wf(),
            hi_next <= hay.len(),
        ensures
            self.fits(hay, hi_next, self.spec_try_reading(hay, pi, hi_next, reading)),
        decreases self.spec_pattern().len() - pi, 2int, 0int,
    {
        if self.spec_pinyin() is Some {
            self.lemma_try_group_fits(
                hay,
                pi,
                hi_next,
                reading,
                self.spec_pinyin()->0.prefix_group,
                0,
                true,
            );
            self.lemma_try_group_fits(
                hay,
                pi,
                hi_next,
                reading,
                self.spec_pinyin()->0.others,
                0,
                false,
            );
        }
    }

    proof fn lemma_try_romaji_fits(
        &self,
        hay: Seq<char>,
        pi: int,
        hi: int,
        readings: Seq<(nat, nat, Seq<char>)>,
        k: int,
    )
        requires
            self.romaji_wf(),
            forall|q: int|
                0 <= q < readings.len() ==> 1 <= (#[trigger] readings[q]).0 && hi + readings[q].0
                    <= hay.len(),
        ensures
            self.fits(hay, hi + 1, self.spec_try_romaji(hay, pi, hi, readings, k)),
        decreases self.spec_pattern().len() - pi, 3int, readings.len() - k,
    {
        if 0 <= k < readings.len() {
            self.lemma_step_fits(hay, pi, hi + readings[k].0, readings[k].2, Lang::Romaji);
            self.lemma_try_romaji_fits(hay, pi, hi, readings, k + 1);
        }
    }
}

/// A match in bytes, where there is one: it is not empty, it ends at the
/// end of the haystack where `at_end` is set, and it is partial only
/// where `partial_allowed` is set.
pub open spec fn shaped(
    found: Option<(int, int, bool)>,
    hay: Seq<char>,
    at_end: bool,
    partial_allowed: bool,
) -> bool {
    match found {
        Some((start, end, partial)) => {
            &&& 0 <= start < end <= utf8_len(hay)
            &&& at_end ==> end == utf8_len(hay)
            &&& partial ==> partial_allowed
        },
        None => true,
    }
}

impl<'a> Rules<'a> {
    /// Whether the pattern is matched from the character `k` of `hay`
    /// on, with enough bytes left, and `found` is that match in bytes.
    pub open spec fn found_at(&self, hay: Seq<char>, k: int, found: (int, int, bool)) -> bool {
        &&& 0 <= k < hay.len()
        &&& utf8_len(hay.skip(k)) >= self.min_haystack_len
        &&& match self.spec_sub_test(hay, 0, k, Lang::Any) {
            Some(m) => found == (
                utf8_len(hay.take(k)) as int,
                (utf8_len(hay.take(k)) + utf8_len(hay.subrange(k, m.end))) as int,
                m.partial,
            ),
            None => false,
        }
    }

    /// Whether the character `k` of `hay` is tried and the pattern is not
    /// matched from there.
    pub open spec fn fails_at(&self, hay: Seq<char>, k: int) -> bool {
        utf8_len(hay.skip(k)) >= self.min_haystack_len ==> self.spec_sub_test(
            hay,
            0,
            k,
            Lang::Any,
        ) is None
    }

    /// In a haystack that is not ASCII throughout, what is found from the
    /// character `i` on is the match from the first character at or after
    /// `i` from which the pattern is matched, of those that are tried:
    /// where matches have to start at the start, `i` alone; none that
    /// leaves fewer bytes than `min_haystack_len`. Nothing is found if
    /// and only if the pattern is matched from none of them.
    pub proof fn lemma_find_is_first(&self, hay: Seq<char>, i: int)
        requires
            0 <= i,
        ensures
            match self.spec_find_from(hay, i) {
                Some(found) => exists|k: int|
                    {
                        &&& i <= k
                        &&& self.starts_with ==> k == i
                        &&& #[trigger] self.found_at(hay, k, found)
                        &&& forall|j: int| i <= j < k ==> #[trigger] self.fails_at(hay, j)
                    },
                None => forall|j: int|
                    i <= j < hay.len() && (self.starts_with ==> j == i) ==> #[trigger]
                        self.fails_at(hay, j),
            },
        decreases hay.len() - i,
    {
        if i >= hay.len() {
        } else if utf8_len(hay.skip(i)) < self.min_haystack_len {
            assert forall|j: int| i <= j < hay.len() implies #[trigger] self.fails_at(hay, j) by {
                lemma_utf8_len_split(hay.skip(i), j - i);
                assert(hay.skip(i).subrange(j - i, hay.skip(i).len() as int) == hay.skip(j));
            }
        } else {
            match self.spec_sub_test(hay, 0, i, Lang::Any) {
                Some(m) => {
                    let found = self.spec_find_from(hay, i)->0;
                    assert(self.found_at(hay, i, found));
                },
                None => {
                    assert(self.fails_at(hay, i));
                    if !self.starts_with {
                        self.lemma_find_is_first(hay, i + 1);
                        match self.spec_find_from(hay, i + 1) {
                            Some(found) => {
                                let k = choose|k: int|
                                    {
                                        &&& i + 1 <= k
                                        &&& #[trigger] self.found_at(hay, k, found)
                                        &&& forall|j: int|
                                            i + 1 <= j < k ==> #[trigger] self.fails_at(hay, j)
                                    };
                                assert(self.found_at(hay, k, found));
                            },
                            None => {},
                        }
                    }
                },
            }
        }
    }

    /// Every match of a pattern that is not empty takes at least one byte
    /// and lies in the haystack; where matches have to end at the end of
    /// the haystack, it ends there; and it is partial only where a
    /// partial pattern is accepted.
    pub proof fn lemma_match_shape(&self, hay: Seq<char>, no_start: bool)
        requires
            self.romaji_wf(),
            self.pattern.len() > 0,
        ensures
            shaped(self.spec_find(hay, no_start), hay, self.ends_with, self.partial_allowed()),
            shaped(self.spec_test(hay, no_start), hay, self.ends_with, self.partial_allowed()),
            match self.spec_test(hay, no_start) {
                Some((start, _, _)) => start == 0,
                None => true,
            },
    {
        let bytes = encode_utf8(hay);
        let pattern = encode_utf8(self.pattern);
        lemma_utf8_len_is_encoded_len(hay);
        lemma_utf8_len_is_encoded_len(self.pattern);
        lemma_utf8_len_bounds(self.pattern);
        if is_ascii_chars(hay) {
            if self.matches_ascii() && !self.ends_with {
                let ci = self.plain->0.case_insensitive;
                let first = spec_first(pattern, ci, self.starts_with, bytes, 0);
                if exists|found: Option<(int, int)>|
                    is_first(pattern, ci, self.starts_with, bytes, 0, found) {
                    assert(is_first(pattern, ci, self.starts_with, bytes, 0, first));
                }
            }
        } else {
            self.lemma_sub_test_fits(hay, 0, 0, Lang::Any);
            match self.spec_sub_test(hay, 0, 0, Lang::Any) {
                Some(m) => {
                    lemma_utf8_len_split(hay, m.end);
                    lemma_utf8_len_bounds(hay.subrange(0, m.end));
                    assert(hay.subrange(0, hay.len() as int) == hay);
                },
                None => {},
            }
            self.lemma_find_is_first(hay, 0);
            match self.spec_find_from(hay, 0) {
                Some(found) => {
                    let k = choose|k: int| 0 <= k && #[trigger] self.found_at(hay, k, found);
                    self.lemma_sub_test_fits(hay, 0, k, Lang::Any);
                    let m = self.spec_sub_test(hay, 0, k, Lang::Any)->0;
                    lemma_utf8_len_split(hay, k);
                    lemma_utf8_len_split(hay.skip(k), m.end - k);
                    assert(hay.subrange(k, hay.len() as int) == hay.skip(k));
                    assert(hay.skip(k).subrange(0, m.end - k) == hay.subrange(k, m.end));
                    assert(hay.subrange(0, k) == hay.take(k));
                    lemma_utf8_len_bounds(hay.subrange(k, m.end));
                    lemma_utf8_len_bounds(hay.take(k));
                    if m.end == hay.len() {
                        assert(hay.skip(k).subrange(m.end - k, hay.skip(k).len() as int)
                            =~= Seq::<char>::empty());
                    }
                },
                None => {},
            }
        }
    }

    /// Where matches have to start at the start of the haystack, what is
    /// found starts there; and nothing is found where the input says that
    /// its start is none.
    pub proof fn lemma_starts_at_start(&self, hay: Seq<char>, no_start: bool)
        requires
            self.starts_with,
        ensures
            match self.spec_find(hay, no_start) {
                Some((start, _, _)) => start == 0 && !no_start,
                None => true,
            },
            no_start ==> self.spec_test(hay, no_start) is None && !self.spec_is_match(
                hay,
                no_start,
            ),
    {
        if no_start || self.pattern.len() == 0 {
        } else if is_ascii_chars(hay) {
            if self.matches_ascii() && !self.ends_with {
                let bytes = encode_utf8(hay);
                let pattern = encode_utf8(self.pattern);
                let ci = self.plain->0.case_insensitive;
                let first = spec_first(pattern, ci, true, bytes, 0);
                if exists|found: Option<(int, int)>| is_first(pattern, ci, true, bytes, 0, found) {
                    assert(is_first(pattern, ci, true, bytes, 0, first));
                }
            }
        } else {
            assert(hay.take(0) =~= Seq::<char>::empty());
        }
    }

    /// A match at the start of the haystack is the one that is found
    /// first.
    pub proof fn lemma_test_is_found(&self, hay: Seq<char>, no_start: bool)
        requires
            self.spec_test(hay, no_start) is Some,
        ensures
            self.spec_find(hay, no_start) == self.spec_test(hay, no_start),
    {
        if self.pattern.len() == 0 {
        } else if is_ascii_chars(hay) {
            let bytes = encode_utf8(hay);
            let pattern = encode_utf8(self.pattern);
            let ci = self.plain->0.case_insensitive;
            if !self.ends_with {
                lemma_first_unique(
                    pattern,
                    ci,
                    self.starts_with,
                    bytes,
                    0,
                    Some((0, pattern.len() as int)),
                );
            }
        } else {
            assert(hay.skip(0) == hay);
            assert(hay.take(0) =~= Seq::<char>::empty());
        }
    }
}

/// Where a reading neither starts what is left of a pattern nor is
/// started by it, no reading that it starts does; and where what is left
/// of the pattern starts a reading and goes no further, it starts every
/// reading that this one starts.
pub proof fn lemma_relation_of_longer(a: Seq<char>, b: Seq<char>, tail: Seq<char>)
    requires
        a.len() >= 1,
        is_prefix(a, b),
    ensures
        spec_relate(a, tail) is Mismatch ==> spec_relate(b, tail) is Mismatch,
        spec_relate(a, tail) is Partial ==> spec_relate(b, tail) is Partial,
{
    if is_prefix(b, tail) {
        assert(tail.subrange(0, a.len() as int) == tail.subrange(0, b.len() as int).subrange(
            0,
            a.len() as int,
        ));
        assert(is_prefix(a, tail));
    }
    if is_prefix(tail, b) {
        if tail.len() <= a.len() {
            assert(a.subrange(0, tail.len() as int) == b.subrange(0, a.len() as int).subrange(
                0,
                tail.len() as int,
            ));
            assert(b.subrange(0, a.len() as int).subrange(0, tail.len() as int) == b.subrange(
                0,
                tail.len() as int,
            ));
            assert(is_prefix(tail, a));
        } else {
            assert(tail.subrange(0, a.len() as int) == b.subrange(0, tail.len() as int).subrange(
                0,
                a.len() as int,
            ));
            assert(b.subrange(0, tail.len() as int).subrange(0, a.len() as int) == b.subrange(
                0,
                a.len() as int,
            ));
            assert(is_prefix(a, tail));
        }
    }
    if spec_relate(a, tail) is Partial {
        assert(is_prefix(tail, a));
        assert(b.subrange(0, tail.len() as int) == b.subrange(0, a.len() as int).subrange(
            0,
            tail.len() as int,
        ));
        assert(is_prefix(tail, b));
        if is_prefix(b, tail) {
            assert(a.len() == tail.len());
            assert(a.subrange(0, a.len() as int) == a);
        }
    }
}

/// The string of a valid pinyin in a notation of the prefix group starts
/// its string in every later notation of the group.
pub proof fn lemma_prefix_group_strings(unicode: Seq<char>, a: PinyinNotation, b: PinyinNotation)
    requires
        valid_pinyin(unicode),
        a.is_single(),
        b.is_single(),
        prefix_rank(a) < prefix_rank(b) < 3,
    ensures
        spec_notation(a, unicode) is Some,
        spec_notation(b, unicode) is Some,
        spec_notation(a, unicode)->0.len() >= 1,
        is_prefix(spec_notation(a, unicode)->0, spec_notation(b, unicode)->0),
{
    lemma_notation_of_valid(a, unicode);
    lemma_notation_of_valid(b, unicode);
    let x = spec_notation(a, unicode)->0;
    let y = spec_notation(b, unicode)->0;
    assert(y.subrange(0, x.len() as int) =~= x);
}

impl<'a> IbMatcher<'a> {
    /// The string of the pinyin `reading` in the `j`-th notation of
    /// `group`; empty where there is none.
    pub open spec fn group_text(
        &self,
        reading: u16,
        group: Seq<PinyinNotation>,
        j: int,
    ) -> Seq<char,> {
        match spec_notation(
            group[j],
            self.spec_pinyin()->0.config.data.table().unicode(reading as int),
        ) {
            Some(s) => s,
            None => Seq::empty(),
        }
    }

    /// To end the prefix group at the first notation that does not match
    /// is to try all its notations: where one of them does not match,
    /// none of those after it does, as its string starts theirs.
    pub proof fn lemma_break_is_continue(
        &self,
        hay: Seq<char>,
        pi: int,
        hi_next: int,
        reading: u16,
        j: int,
    )
        requires
            self.wf(),
            self.spec_pinyin() is Some,
            reading < self.spec_pinyin()->0.config.data.table().count(),
            0 <= j,
        ensures
            self.spec_try_group(
                hay,
                pi,
                hi_next,
                reading,
                self.spec_pinyin()->0.prefix_group,
                j,
                true,
            ) == self.spec_try_group(
                hay,
                pi,
                hi_next,
                reading,
                self.spec_pinyin()->0.prefix_group,
                j,
                false,
            ),
        decreases self.spec_pinyin()->0.prefix_group.len() - j,
    {
        let group = self.spec_pinyin()->0.prefix_group;
        if j < group.len() {
            self.lemma_break_is_continue(hay, pi, hi_next, reading, j + 1);
            let step = self.spec_step(
                hay,
                pi,
                hi_next,
                self.group_text(reading, group, j),
                Lang::Pinyin,
            );
            if step.1 is None && !step.0 {
                self.lemma_none_after_mismatch(hay, pi, hi_next, reading, j, j + 1);
            }
        }
    }

    /// Where the `j`-th notation of the prefix group does not match, no
    /// notation from the `k`-th on, after it, leads to a match.
    proof fn lemma_none_after_mismatch(
        &self,
        hay: Seq<char>,
        pi: int,
        hi_next: int,
        reading: u16,
        j: int,
        k: int,
    )
        requires
            self.wf(),
            self.spec_pinyin() is Some,
            reading < self.spec_pinyin()->0.config.data.table().count(),
            0 <= j < k,
            j < self.spec_pinyin()->0.prefix_group.len(),
            self.spec_step(
                hay,
                pi,
                hi_next,
                self.group_text(reading, self.spec_pinyin()->0.prefix_group, j),
                Lang::Pinyin,
            ) == (false, None::<SpecMatch>),
        ensures
            self.spec_try_group(
                hay,
                pi,
                hi_next,
                reading,
                self.spec_pinyin()->0.prefix_group,
                k,
                false,
            ) is None,
        decreases self.spec_pinyin()->0.prefix_group.len() - k,
    {
        self.lemma_wf();
        let matcher = self.spec_pinyin()->0;
        let group = matcher.prefix_group;
        if k < group.len() {
            matcher.config.data.lemma_wf();
            let unicode = matcher.config.data.table().unicode(reading as int);
            assert(valid_pinyin(unicode));
            assert(group[j].is_single() && group[k].is_single());
            lemma_prefix_group_strings(unicode, group[j], group[k]);
            let first = self.group_text(reading, group, j);
            let later = self.group_text(reading, group, k);
            if pi >= 0 {
                let tail = self.tail(Lang::Pinyin, pi);
                lemma_relation_of_longer(first, later, tail);
                assert(spec_relate(first, tail) is Mismatch || (spec_relate(first, tail) is Partial
                    && !self.lang_partial(Lang::Pinyin)));
            }
            assert(self.spec_step(hay, pi, hi_next, later, Lang::Pinyin) == (
                false,
                None::<SpecMatch>,
            ));
            self.lemma_none_after_mismatch(hay, pi, hi_next, reading, j, k + 1);
        }
    }
}

} // verus!
