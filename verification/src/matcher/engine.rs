//! The matcher: a pattern against a haystack, character by character, as
//! itself, as pinyin and as romaji.
use vstd::prelude::*;
use vstd::utf8::{encode_utf8, is_ascii_chars, is_ascii_chars_encode_utf8};
use crate::matcher::ascii::{
    AsciiMatcher, lemma_first_is_some, occurs, PlainMatchConfig, spec_ascii_find, spec_ascii_test,
};
use crate::matcher::input::Input;
use crate::matcher::matches::{Match, SubMatch};
use crate::matcher::pinyin::{PinyinMatcher, PinyinRules};
use crate::matcher::romaji::RomajiMatcher;
use crate::pinyin::notation::PinyinNotation;
use crate::pinyin::table::spec_notation;
use crate::romaji::romanized_view;
use crate::unicode::case::{CharToMonoLowercase, mono_lowercase, mono_lowercase_seq};
use crate::unicode::utf8::{
    chars_of, lemma_utf8_len_concat, lemma_utf8_len_is_encoded_len, lemma_utf8_len_push, len_utf8,
    relate, Relation, spec_relate, utf8_len,
};

verus! {

/// The languages in which the next character of a haystack may be read.
#[derive(Clone, Copy, PartialEq, Eq, Structural, Debug)]
pub enum Lang {
    Any,
    Pinyin,
    Romaji,
}

/// How one step of a match reads the haystack.
#[derive(Clone, Copy, PartialEq, Eq, Structural, Debug)]
pub enum Step {
    Plain,
    Pinyin,
    Romaji,
}

/// A match from a given place of a haystack on, in characters: where it
/// ends, whether the pattern's end was consumed only partially, and how
/// each of its steps read the haystack.
pub struct SpecMatch {
    pub end: int,
    pub partial: bool,
    pub steps: Seq<Step>,
}

/// `found` with one more step before it.
pub open spec fn after_step(step: Step, found: Option<SpecMatch>) -> Option<SpecMatch> {
    match found {
        Some(m) => Some(SpecMatch { end: m.end, partial: m.partial, steps: seq![step] + m.steps }),
        None => None,
    }
}

/// The step that reads in `lang`.
pub open spec fn step_of(lang: Lang) -> Step {
    match lang {
        Lang::Romaji => Step::Romaji,
        _ => Step::Pinyin,
    }
}

/// Whether a match in bytes is the match `found` in characters, counted
/// from the character `base` of `hay`, before which `base_len` bytes are
/// matched already.
pub open spec fn agrees(
    r: Option<SubMatch>,
    found: Option<SpecMatch>,
    base_len: int,
    hay: Seq<char>,
    base: int,
) -> bool {
    match found {
        Some(m) => {
            &&& r is Some
            &&& base <= m.end <= hay.len()
            &&& r->0.len == base_len + utf8_len(hay.subrange(base, m.end))
            &&& r->0.is_pattern_partial == m.partial
        },
        None => r is None,
    }
}

/// The bytes of `hay[a..c]` are those of `hay[a..b]` and of `hay[b..c]`.
pub proof fn lemma_bytes_split(hay: Seq<char>, a: int, b: int, c: int)
    requires
        0 <= a <= b <= c <= hay.len(),
    ensures
        utf8_len(hay.subrange(a, c)) == utf8_len(hay.subrange(a, b)) + utf8_len(hay.subrange(b, c)),
{
    assert(hay.subrange(a, c) == hay.subrange(a, b) + hay.subrange(b, c));
    lemma_utf8_len_concat(hay.subrange(a, b), hay.subrange(b, c));
}

/// A match counted from a later place is the same match counted from an
/// earlier place, with the bytes between the two taken off.
pub proof fn lemma_rebase(
    r: Option<SubMatch>,
    found: Option<SpecMatch>,
    base_len: int,
    hay: Seq<char>,
    base: int,
    next_len: int,
    next: int,
)
    requires
        0 <= base <= next <= hay.len(),
        next_len == base_len + utf8_len(hay.subrange(base, next)),
        agrees(r, found, next_len, hay, next),
    ensures
        agrees(r, found, base_len, hay, base),
{
    match found {
        Some(m) => {
            lemma_bytes_split(hay, base, next, m.end);
        },
        None => {},
    }
}

/// A multilingual matcher for one pattern.
pub struct IbMatcher<'a> {
    pub(crate) ascii: AsciiMatcher,
    pub(crate) pattern: Vec<char>,
    pub(crate) pattern_lowercase: Vec<char>,
    pub(crate) min_haystack_len: usize,
    pub(crate) starts_with: bool,
    pub(crate) ends_with: bool,
    pub(crate) plain: Option<PlainMatchConfig>,
    pub(crate) pinyin: Option<PinyinMatcher<'a>>,
    pub(crate) romaji: Option<RomajiMatcher<'a>>,
    pub(crate) mix_lang: bool,
}

/// What a matcher matches by: the pattern, the fewest bytes of a haystack
/// that are tried, where matches have to start and end, and how the
/// pattern is read in each language.
pub struct Rules<'a> {
    pub pattern: Seq<char>,
    pub min_haystack_len: usize,
    pub starts_with: bool,
    pub ends_with: bool,
    pub plain: Option<PlainMatchConfig>,
    pub pinyin: Option<PinyinRules<'a>>,
    pub romaji: Option<RomajiMatcher<'a>>,
    pub mix_lang: bool,
}

impl<'a> Rules<'a> {
    /// The pattern.
    pub open spec fn spec_pattern(&self) -> Seq<char> {
        self.pattern
    }

    /// The pattern with every character folded to lower case.
    pub open spec fn spec_pattern_lowercase(&self) -> Seq<char> {
        mono_lowercase_seq(self.pattern)
    }

    /// The fewest bytes of a haystack that the pattern is taken to match.
    pub open spec fn spec_min_haystack_len(&self) -> usize {
        self.min_haystack_len
    }

    /// Whether matches have to start at the start of the haystack.
    pub open spec fn spec_starts_with(&self) -> bool {
        self.starts_with
    }

    /// Whether matches have to end at the end of the haystack.
    pub open spec fn spec_ends_with(&self) -> bool {
        self.ends_with
    }

    /// How the characters of the pattern are matched as themselves, if they
    /// are.
    pub open spec fn spec_plain(&self) -> Option<PlainMatchConfig> {
        self.plain
    }

    /// How the pattern is matched as pinyin, if it is.
    pub open spec fn spec_pinyin(&self) -> Option<PinyinRules<'a>> {
        self.pinyin
    }

    /// How the pattern is matched as romaji, if it is.
    pub open spec fn spec_romaji(&self) -> Option<RomajiMatcher<'a>> {
        self.romaji
    }

    /// Whether one match may read both pinyin and romaji.
    pub open spec fn spec_mix_lang(&self) -> bool {
        self.mix_lang
    }

    /// Whether the character `hc` of a haystack is the `pi`-th character
    /// of the pattern, as far as plain matching is on and minds the case.
    pub open spec fn plain_matches(&self, hc: char, pi: int) -> bool {
        match self.spec_plain() {
            Some(plain) => if plain.case_insensitive {
                mono_lowercase(hc) == self.spec_pattern_lowercase()[pi]
            } else {
                hc == self.spec_pattern()[pi]
            },
            None => false,
        }
    }

    /// Whether readings in `lang` ignore the case of the pattern.
    pub open spec fn lang_case_insensitive(&self, lang: Lang) -> bool {
        match lang {
            Lang::Romaji => self.spec_romaji() is Some
                && self.spec_romaji()->0.config.case_insensitive,
            _ => self.spec_pinyin() is Some && self.spec_pinyin()->0.config.case_insensitive,
        }
    }

    /// Whether a reading in `lang` may go on beyond the pattern's end.
    pub open spec fn lang_partial(&self, lang: Lang) -> bool {
        match lang {
            Lang::Romaji => self.spec_romaji() is Some && self.spec_romaji()->0.partial_pattern,
            _ => self.spec_pinyin() is Some && self.spec_pinyin()->0.partial_pattern,
        }
    }

    /// What is left of the pattern from its `pi`-th character on, as
    /// readings in `lang` see it.
    pub open spec fn tail(&self, lang: Lang, pi: int) -> Seq<char> {
        if self.lang_case_insensitive(lang) {
            self.spec_pattern_lowercase().skip(pi)
        } else {
            self.spec_pattern().skip(pi)
        }
    }

    /// The match that ends before the character `end` of `hay`, after a
    /// last step `step`: none where matches have to end at the end of the
    /// haystack and this one does not.
    pub open spec fn accept(
        &self,
        hay: Seq<char>,
        end: int,
        partial: bool,
        step: Step,
    ) -> Option<SpecMatch,> {
        if !self.spec_ends_with() || end == hay.len() {
            Some(SpecMatch { end, partial, steps: seq![step] })
        } else {
            None
        }
    }

    /// The language in which the step after a reading in `lang` may read.
    pub open spec fn next_lang(&self, lang: Lang) -> Lang {
        if self.spec_mix_lang() {
            Lang::Any
        } else {
            lang
        }
    }

    /// One reading of the haystack before `hi_next` against the pattern
    /// from `pi` on: whether the reading matches, and the match that
    /// follows from it.
    /// - Where the pattern's rest is a proper prefix of the reading, the
    ///   reading matches if a partial pattern is allowed, and the match
    ///   is partial.
    /// - Where the reading is the pattern's rest, the match ends here.
    /// - Where the reading is a proper prefix of the pattern's rest, the
    ///   rest of the pattern is matched from `hi_next` on, in the same
    ///   language, or in any if languages may be mixed.
    pub open spec fn spec_step(
        &self,
        hay: Seq<char>,
        pi: int,
        hi_next: int,
        reading: Seq<char>,
        lang: Lang,
    ) -> (bool, Option<SpecMatch>)
        decreases self.spec_pattern().len() - pi, 0int, 0int,
    {
        if pi < 0 {
            (false, None)
        } else {
            match spec_relate(reading, self.tail(lang, pi)) {
                Relation::Mismatch => (false, None),
                Relation::Partial => if self.lang_partial(lang) {
                    (true, self.accept(hay, hi_next, true, step_of(lang)))
                } else {
                    (false, None)
                },
                Relation::Exact => (true, self.accept(hay, hi_next, false, step_of(lang))),
                Relation::Prefix => if 0 < reading.len() && pi + reading.len()
                    < self.spec_pattern().len() {
                    (
                        true,
                        after_step(
                            step_of(lang),
                            self.spec_sub_test(
                                hay,
                                pi + reading.len(),
                                hi_next,
                                self.next_lang(lang),
                            ),
                        ),
                    )
                } else {
                    (true, None)
                },
            }
        }
    }

    /// The notations of `group` from the `j`-th on, for the pinyin
    /// `reading`: the match of the first that leads to one. In the prefix
    /// group (`breaks`), a notation that does not match ends the group.
    pub open spec fn spec_try_group(
        &self,
        hay: Seq<char>,
        pi: int,
        hi_next: int,
        reading: u16,
        group: Seq<PinyinNotation>,
        j: int,
        breaks: bool,
    ) -> Option<SpecMatch>
        decreases self.spec_pattern().len() - pi, 1int, group.len() - j,
    {
        if j < 0 || j >= group.len() || self.spec_pinyin() is None {
            None
        } else {
            let text = match spec_notation(
                group[j],
                self.spec_pinyin()->0.config.data.table().unicode(reading as int),
            ) {
                Some(s) => s,
                None => Seq::empty(),
            };
            let (matched, found) = self.spec_step(hay, pi, hi_next, text, Lang::Pinyin);
            if found is Some {
                found
            } else if !matched && breaks {
                None
            } else {
                self.spec_try_group(hay, pi, hi_next, reading, group, j + 1, breaks)
            }
        }
    }

    /// One pinyin of a character: the prefix group, then the other
    /// notations.
    pub open spec fn spec_try_reading(
        &self,
        hay: Seq<char>,
        pi: int,
        hi_next: int,
        reading: u16,
    ) -> Option<SpecMatch,>
        decreases self.spec_pattern().len() - pi, 2int, 0int,
    {
        if self.spec_pinyin() is None {
            None
        } else {
            match self.spec_try_group(
                hay,
                pi,
                hi_next,
                reading,
                self.spec_pinyin()->0.prefix_group,
                0,
                true,
            ) {
                Some(m) => Some(m),
                None => self.spec_try_group(
                    hay,
                    pi,
                    hi_next,
                    reading,
                    self.spec_pinyin()->0.others,
                    0,
                    false,
                ),
            }
        }
    }

    /// The pinyins of a character from the `k`-th on: the match of the
    /// first that leads to one.
    pub open spec fn spec_try_readings(
        &self,
        hay: Seq<char>,
        pi: int,
        hi_next: int,
        readings: Seq<u16>,
        k: int,
    ) -> Option<SpecMatch>
        decreases self.spec_pattern().len() - pi, 3int, readings.len() - k,
    {
        if k < 0 || k >= readings.len() {
            None
        } else {
            match self.spec_try_reading(hay, pi, hi_next, readings[k]) {
                Some(m) => Some(m),
                None => self.spec_try_readings(hay, pi, hi_next, readings, k + 1),
            }
        }
    }

    /// The romaji readings from the `k`-th on: the match of the first that
    /// leads to one.
    pub open spec fn spec_try_romaji(
        &self,
        hay: Seq<char>,
        pi: int,
        hi: int,
        readings: Seq<(nat, nat, Seq<char>)>,
        k: int,
    ) -> Option<SpecMatch>
        decreases self.spec_pattern().len() - pi, 3int, readings.len() - k,
    {
        if k < 0 || k >= readings.len() {
            None
        } else {
            match self.spec_step(hay, pi, hi + readings[k].0, readings[k].2, Lang::Romaji).1 {
                Some(m) => Some(m),
                None => self.spec_try_romaji(hay, pi, hi, readings, k + 1),
            }
        }
    }

    /// The match of the pattern from its `pi`-th character on against the
    /// haystack from its `hi`-th character on, where the first character
    /// may be read in `lang`.
    /// 1. Where the character is the pattern's, it is taken as itself:
    ///    the match ends here, or goes on in any language.
    /// 2. Otherwise an ASCII character matches nothing.
    /// 3. Otherwise the romaji readings of what stands here are tried.
    /// 4. Then the pinyins of the character are tried.
    pub open spec fn spec_sub_test(
        &self,
        hay: Seq<char>,
        pi: int,
        hi: int,
        lang: Lang,
    ) -> Option<SpecMatch,>
        decreases self.spec_pattern().len() - pi, 4int, 0int,
    {
        if pi < 0 || pi >= self.spec_pattern().len() || hi < 0 || hi >= hay.len() {
            None
        } else if self.plain_matches(hay[hi], pi) {
            if pi + 1 == self.spec_pattern().len() {
                self.accept(hay, hi + 1, false, Step::Plain)
            } else {
                after_step(Step::Plain, self.spec_sub_test(hay, pi + 1, hi + 1, Lang::Any))
            }
        } else if (hay[hi] as u32) < 128 {
            None
        } else {
            let by_romaji = if self.spec_romaji() is Some && lang != Lang::Pinyin {
                self.spec_try_romaji(
                    hay,
                    pi,
                    hi,
                    self.spec_romaji()->0.config.romanizer.spec_romanize(hay.skip(hi)),
                    0,
                )
            } else {
                None
            };
            if by_romaji is Some {
                by_romaji
            } else if self.spec_pinyin() is Some && lang != Lang::Romaji {
                self.spec_try_readings(
                    hay,
                    pi,
                    hi + 1,
                    self.spec_pinyin()->0.config.data.table().spec_readings(hay[hi]),
                    0,
                )
            } else {
                None
            }
        }
    }

}

impl<'a> IbMatcher<'a> {
    /// What the matcher matches by.
    pub closed spec fn rules(&self) -> Rules<'a> {
        Rules {
            pattern: self.pattern@,
            min_haystack_len: self.min_haystack_len,
            starts_with: self.starts_with,
            ends_with: self.ends_with,
            plain: self.plain,
            pinyin: match self.pinyin {
                Some(p) => Some(p@),
                None => None,
            },
            romaji: self.romaji,
            mix_lang: self.mix_lang,
        }
    }

    /// The pattern.
    pub open spec fn spec_pattern(&self) -> Seq<char> {
        self.rules().pattern
    }

    /// The pattern with every character folded to lower case.
    pub open spec fn spec_pattern_lowercase(&self) -> Seq<char> {
        self.rules().spec_pattern_lowercase()
    }

    /// The fewest bytes of a haystack that the pattern is taken to match.
    pub open spec fn spec_min_haystack_len(&self) -> usize {
        self.rules().min_haystack_len
    }

    /// Whether matches have to start at the start of the haystack.
    pub open spec fn spec_starts_with(&self) -> bool {
        self.rules().starts_with
    }

    /// Whether matches have to end at the end of the haystack.
    pub open spec fn spec_ends_with(&self) -> bool {
        self.rules().ends_with
    }

    /// How the characters of the pattern are matched as themselves, if they
    /// are.
    pub open spec fn spec_plain(&self) -> Option<PlainMatchConfig> {
        self.rules().plain
    }

    /// How the pattern is matched as pinyin, if it is.
    pub open spec fn spec_pinyin(&self) -> Option<PinyinRules<'a>> {
        self.rules().pinyin
    }

    /// How the pattern is matched as romaji, if it is.
    pub open spec fn spec_romaji(&self) -> Option<RomajiMatcher<'a>> {
        self.rules().romaji
    }

    /// Whether one match may read both pinyin and romaji.
    pub open spec fn spec_mix_lang(&self) -> bool {
        self.rules().mix_lang
    }

    /// See `Rules::plain_matches`.
    pub open spec fn plain_matches(&self, hc: char, pi: int) -> bool {
        self.rules().plain_matches(hc, pi)
    }

    /// See `Rules::tail`.
    pub open spec fn tail(&self, lang: Lang, pi: int) -> Seq<char> {
        self.rules().tail(lang, pi)
    }

    /// See `Rules::accept`.
    pub open spec fn accept(
        &self,
        hay: Seq<char>,
        end: int,
        partial: bool,
        step: Step,
    ) -> Option<SpecMatch> {
        self.rules().accept(hay, end, partial, step)
    }

    /// See `Rules::lang_case_insensitive`.
    pub open spec fn lang_case_insensitive(&self, lang: Lang) -> bool {
        self.rules().lang_case_insensitive(lang)
    }

    /// See `Rules::lang_partial`.
    pub open spec fn lang_partial(&self, lang: Lang) -> bool {
        self.rules().lang_partial(lang)
    }

    /// See `Rules::next_lang`.
    pub open spec fn next_lang(&self, lang: Lang) -> Lang {
        self.rules().next_lang(lang)
    }

    /// See `Rules::spec_step`.
    pub open spec fn spec_step(
        &self,
        hay: Seq<char>,
        pi: int,
        hi_next: int,
        reading: Seq<char>,
        lang: Lang,
    ) -> (bool, Option<SpecMatch>) {
        self.rules().spec_step(hay, pi, hi_next, reading, lang)
    }

    /// See `Rules::spec_try_group`.
    pub open spec fn spec_try_group(
        &self,
        hay: Seq<char>,
        pi: int,
        hi_next: int,
        reading: u16,
        group: Seq<PinyinNotation>,
        j: int,
        breaks: bool,
    ) -> Option<SpecMatch> {
        self.rules().spec_try_group(hay, pi, hi_next, reading, group, j, breaks)
    }

    /// See `Rules::spec_try_reading`.
    pub open spec fn spec_try_reading(
        &self,
        hay: Seq<char>,
        pi: int,
        hi_next: int,
        reading: u16,
    ) -> Option<SpecMatch> {
        self.rules().spec_try_reading(hay, pi, hi_next, reading)
    }

    /// See `Rules::spec_try_readings`.
    pub open spec fn spec_try_readings(
        &self,
        hay: Seq<char>,
        pi: int,
        hi_next: int,
        readings: Seq<u16>,
        k: int,
    ) -> Option<SpecMatch> {
        self.rules().spec_try_readings(hay, pi, hi_next, readings, k)
    }

    /// See `Rules::spec_try_romaji`.
    pub open spec fn spec_try_romaji(
        &self,
        hay: Seq<char>,
        pi: int,
        hi: int,
        readings: Seq<(nat, nat, Seq<char>)>,
        k: int,
    ) -> Option<SpecMatch> {
        self.rules().spec_try_romaji(hay, pi, hi, readings, k)
    }

    /// The match of the pattern from its `pi`-th character on against the
    /// haystack from its `hi`-th character on. See `Rules::spec_sub_test`.
    pub open spec fn spec_sub_test(
        &self,
        hay: Seq<char>,
        pi: int,
        hi: int,
        lang: Lang,
    ) -> Option<SpecMatch> {
        self.rules().spec_sub_test(hay, pi, hi, lang)
    }

    /// See `Rules::spec_find_from`.
    pub open spec fn spec_find_from(&self, hay: Seq<char>, i: int) -> Option<(int, int, bool)> {
        self.rules().spec_find_from(hay, i)
    }

    /// What `find` yields, in bytes. See `Rules::spec_find`.
    pub open spec fn spec_find(&self, hay: Seq<char>, no_start: bool) -> Option<(int, int, bool)> {
        self.rules().spec_find(hay, no_start)
    }

    /// What `is_match` yields. See `Rules::spec_is_match`.
    pub open spec fn spec_is_match(&self, hay: Seq<char>, no_start: bool) -> bool {
        self.rules().spec_is_match(hay, no_start)
    }

    /// What `test` yields, in bytes. See `Rules::spec_test`.
    pub open spec fn spec_test(&self, hay: Seq<char>, no_start: bool) -> Option<(int, int, bool)> {
        self.rules().spec_test(hay, no_start)
    }

    /// The parts of the matcher are well formed, and the folded pattern is
    /// the pattern folded.
    pub closed spec fn wf(&self) -> bool {
        &&& self.pattern_lowercase@ == mono_lowercase_seq(self.pattern@)
        &&& self.ascii.wf()
        &&& self.pinyin is Some ==> self.pinyin->0.wf()
        &&& self.romaji is Some ==> self.romaji->0.config.wf()
        &&& self.min_haystack_len <= utf8_len(self.pattern_lowercase@)
        &&& match self.ascii {
            AsciiMatcher::Ac(m) => {
                &&& is_ascii_chars(self.pattern@)
                &&& m.pattern() == encode_utf8(self.pattern@)
                &&& self.plain is Some
                &&& m.case_insensitive() == self.plain->0.case_insensitive
                &&& m.starts_with() == self.starts_with
                &&& m.ends_with() == self.ends_with
            },
            AsciiMatcher::Fail => self.plain is None || !is_ascii_chars(self.pattern@),
            AsciiMatcher::Regex(_) => false,
        }
    }
}

/// The bytes from `hi` on are those of the next `n` characters and of
/// what follows them.
pub proof fn lemma_skip_split(hay: Seq<char>, hi: int, n: int)
    requires
        0 <= hi,
        0 <= n,
        hi + n <= hay.len(),
    ensures
        utf8_len(hay.skip(hi)) == utf8_len(hay.subrange(hi, hi + n)) + utf8_len(hay.skip(hi + n)),
        hay.skip(hi).take(n) == hay.subrange(hi, hi + n),
{
    assert(hay.skip(hi) == hay.subrange(hi, hay.len() as int));
    assert(hay.skip(hi + n) == hay.subrange(hi + n, hay.len() as int));
    lemma_bytes_split(hay, hi, hi + n, hay.len() as int);
    assert(hay.skip(hi).take(n) == hay.subrange(hi, hi + n));
}

impl<'a> IbMatcher<'a> {
    fn accept_here(
        &self,
        hay: &[char],
        end: usize,
        matched_len: usize,
        partial: bool,
        step: Ghost< Step, >,
    ) -> (r: Option<SubMatch>)
        requires
            end <= hay.len(),
        ensures
            agrees(
                r,
                self.accept(hay@, end as int, partial, step@),
                matched_len as int,
                hay@,
                end as int,
            ),
    {
        proof {
            assert(hay@.subrange(end as int, end as int) == Seq::<char>::empty());
        }
        if !self.ends_with || end == hay.len() {
            Some(SubMatch::new(matched_len, partial))
        } else {
            None
        }
    }

    /// One reading of the haystack before `hi_next`, where
    /// `matched_len_next` bytes are matched, against the pattern from `pi`
    /// on: whether the reading matches, and the match that follows from
    /// it.
    pub fn sub_test_pinyin(
        &self,
        hay: &[char],
        pi: usize,
        hi_next: usize,
        matched_len_next: usize,
        reading: &str,
        lang: Lang,
    ) -> (r: (bool, Option<SubMatch>))
        requires
            self.wf(),
            pi < self.spec_pattern().len(),
            hi_next <= hay.len(),
            matched_len_next + utf8_len(hay@.skip(hi_next as int)) <= usize::MAX,
        ensures
            r.0 == self.spec_step(hay@, pi as int, hi_next as int, reading@, lang).0,
            agrees(
                r.1,
                self.spec_step(hay@, pi as int, hi_next as int, reading@, lang).1,
                matched_len_next as int,
                hay@,
                hi_next as int,
            ),
        decreases self.spec_pattern().len() - pi, 0int,
    {
        let case_insensitive = match lang {
            Lang::Romaji => match &self.romaji {
                Some(m) => m.config.case_insensitive,
                None => false,
            },
            _ => match &self.pinyin {
                Some(m) => m.config.case_insensitive,
                None => false,
            },
        };
        let partial = match lang {
            Lang::Romaji => match &self.romaji {
                Some(m) => m.partial_pattern,
                None => false,
            },
            _ => match &self.pinyin {
                Some(m) => m.partial_pattern,
                None => false,
            },
        };
        let (relation, n) = if case_insensitive {
            relate(reading, self.pattern_lowercase.as_slice(), pi)
        } else {
            relate(reading, self.pattern.as_slice(), pi)
        };
        match relation {
            Relation::Mismatch => (false, None),
            Relation::Partial => {
                if partial {
                    (true, self.accept_here(hay, hi_next, matched_len_next, true,
                        Ghost(step_of(lang))))
                } else {
                    (false, None)
                }
            },
            Relation::Exact => (
                true,
                self.accept_here(hay, hi_next, matched_len_next, false, Ghost(step_of(lang))),
            ),
            Relation::Prefix => {
                let next = if self.mix_lang {
                    Lang::Any
                } else {
                    lang
                };
                (true, self.sub_test(hay, pi + n, hi_next, matched_len_next, next))
            },
        }
    }

    /// The notations of the prefix group, or the others, for one pinyin.
    fn try_group(
        &self,
        hay: &[char],
        pi: usize,
        hi_next: usize,
        matched_len_next: usize,
        reading: u16,
        prefix: bool,
    ) -> (r: Option<SubMatch>)
        requires
            self.wf(),
            self.spec_pinyin() is Some,
            reading < self.spec_pinyin()->0.config.data.table().count(),
            pi < self.spec_pattern().len(),
            hi_next <= hay.len(),
            matched_len_next + utf8_len(hay@.skip(hi_next as int)) <= usize::MAX,
        ensures
            agrees(
                r,
                self.spec_try_group(
                    hay@,
                    pi as int,
                    hi_next as int,
                    reading,
                    if prefix {
                        self.spec_pinyin()->0.prefix_group
                    } else {
                        self.spec_pinyin()->0.others
                    },
                    0,
                    prefix,
                ),
                matched_len_next as int,
                hay@,
                hi_next as int,
            ),
        decreases self.spec_pattern().len() - pi, 1int,
    {
        match &self.pinyin {
            None => None,
            Some(matcher) => {
                let group = if prefix {
                    &matcher.notations_prefix_group
                } else {
                    &matcher.notations
                };
                let mut j: usize = 0;
                while j < group.len()
                    invariant
                        self.wf(),
                        self.spec_pinyin() == Some(matcher@),
                        group@ == (if prefix {
                            matcher.notations_prefix_group@
                        } else {
                            matcher.notations@
                        }),
                        reading < matcher.config.data.table().count(),
                        pi < self.spec_pattern().len(),
                        hi_next <= hay.len(),
                        matched_len_next + utf8_len(hay@.skip(hi_next as int)) <= usize::MAX,
                        j <= group.len(),
                        self.spec_try_group(hay@, pi as int, hi_next as int, reading, group@, 0,
                            prefix)
                            == self.spec_try_group(
                            hay@,
                            pi as int,
                            hi_next as int,
                            reading,
                            group@,
                            j as int,
                            prefix,
                        ),
                    decreases group.len() - j,
                {
                    let notation = group[j];
                    match matcher.config.data.notation_str(reading, notation) {
                        Some(text) => {
                            let (matched, found) = self.sub_test_pinyin(
                                hay,
                                pi,
                                hi_next,
                                matched_len_next,
                                text,
                                Lang::Pinyin,
                            );
                            if found.is_some() {
                                return found;
                            }
                            if !matched && prefix {
                                return None;
                            }
                        },
                        None => {
                            proof {
                                assert(false);
                            }
                        },
                    }
                    j = j + 1;
                }
                None
            },
        }
    }

    /// The romaji readings of what stands at `hi`.
    fn try_romaji(
        &self,
        hay: &[char],
        pi: usize,
        hi: usize,
        matched_len: usize,
    ) -> (r: Option<SubMatch,>)
        requires
            self.wf(),
            self.spec_romaji() is Some,
            pi < self.spec_pattern().len(),
            hi < hay.len(),
            matched_len + utf8_len(hay@.skip(hi as int)) <= usize::MAX,
        ensures
            agrees(
                r,
                self.spec_try_romaji(
                    hay@,
                    pi as int,
                    hi as int,
                    self.spec_romaji()->0.config.romanizer.spec_romanize(hay@.skip(hi as int)),
                    0,
                ),
                matched_len as int,
                hay@,
                hi as int,
            ),
        decreases self.spec_pattern().len() - pi, 3int,
    {
        match &self.romaji {
            None => None,
            Some(romaji) => {
                let readings = romaji.config.romanizer.romanize_chars(hay, hi);
                let ghost all = romaji.config.romanizer.spec_romanize(hay@.skip(hi as int));
                let mut k: usize = 0;
                while k < readings.len()
                    invariant
                        self.wf(),
                        self.spec_romaji() == Some(*romaji),
                        romaji.config.romanizer.wf(),
                        all == romaji.config.romanizer.spec_romanize(hay@.skip(hi as int)),
                        romanized_view(readings@) == all,
                        pi < self.spec_pattern().len(),
                        hi < hay.len(),
                        matched_len + utf8_len(hay@.skip(hi as int)) <= usize::MAX,
                        k <= readings.len(),
                        self.spec_try_romaji(hay@, pi as int, hi as int, all, 0)
                            == self.spec_try_romaji(hay@, pi as int, hi as int, all, k as int),
                    decreases readings.len() - k,
                {
                    let chars = readings[k].chars;
                    let len = readings[k].len;
                    proof {
                        assert(all.len() == readings@.len());
                        assert(all[k as int] == (
                            chars as nat,
                            len as nat,
                            readings@[k as int].romaji@,
                        ));
                        romaji.config.romanizer.lemma_romanize(hay@.skip(hi as int), k as int);
                        lemma_skip_split(hay@, hi as int, chars as int);
                    }
                    let (_, found) = self.sub_test_pinyin(
                        hay,
                        pi,
                        hi + chars,
                        matched_len + len,
                        readings[k].romaji,
                        Lang::Romaji,
                    );
                    if found.is_some() {
                        proof {
                            let sub = self.spec_step(
                                hay@,
                                pi as int,
                                hi + chars,
                                readings@[k as int].romaji@,
                                Lang::Romaji,
                            ).1;
                            lemma_rebase(
                                found,
                                sub,
                                matched_len as int,
                                hay@,
                                hi as int,
                                matched_len + len,
                                hi + chars,
                            );
                            assert(self.spec_try_romaji(hay@, pi as int, hi as int, all, k as int)
                                == sub);
                        }
                        return found;
                    }
                    k = k + 1;
                }
                proof {
                    assert(all.len() == readings@.len());
                }
                None
            },
        }
    }

    /// The pinyins of the character `hc`, which stands before `hi_next`.
    fn try_readings(
        &self,
        hay: &[char],
        pi: usize,
        hi_next: usize,
        matched_len_next: usize,
        hc: char,
    ) -> (r: Option<SubMatch>)
        requires
            self.wf(),
            self.spec_pinyin() is Some,
            pi < self.spec_pattern().len(),
            hi_next <= hay.len(),
            matched_len_next + utf8_len(hay@.skip(hi_next as int)) <= usize::MAX,
        ensures
            agrees(
                r,
                self.spec_try_readings(
                    hay@,
                    pi as int,
                    hi_next as int,
                    self.spec_pinyin()->0.config.data.table().spec_readings(hc),
                    0,
                ),
                matched_len_next as int,
                hay@,
                hi_next as int,
            ),
        decreases self.spec_pattern().len() - pi, 3int,
    {
        match &self.pinyin {
            None => None,
            Some(matcher) => {
                proof {
                    matcher.config.data.lemma_wf();
                }
                let table = matcher.config.data.tables();
                match table.get_pinyin_index(hc) {
                    None => None,
                    Some(index) => {
                        let count = table.reading_count(index);
                        let ghost all = table.spec_readings(hc);
                        let mut k: usize = 0;
                        while k < count
                            invariant
                                self.wf(),
                                self.spec_pinyin() == Some(matcher@),
                                *table == matcher.config.data.table(),
                                table.wf(),
                                index != crate::pinyin::table::NO_PINYIN,
                                table.valid_entry(index),
                                all == table.spec_readings_of(index),
                                all == table.spec_readings(hc),
                                count == all.len(),
                                pi < self.spec_pattern().len(),
                                hi_next <= hay.len(),
                                matched_len_next + utf8_len(hay@.skip(hi_next as int))
                                    <= usize::MAX,
                                k <= count,
                                self.spec_try_readings(hay@, pi as int, hi_next as int, all, 0)
                                    == self.spec_try_readings(
                                    hay@,
                                    pi as int,
                                    hi_next as int,
                                    all,
                                    k as int,
                                ),
                            decreases count - k,
                        {
                            let reading = table.reading_at(index, k);
                            let first = self.try_group(
                                hay,
                                pi,
                                hi_next,
                                matched_len_next,
                                reading,
                                true,
                            );
                            let found = if first.is_some() {
                                first
                            } else {
                                self.try_group(hay, pi, hi_next, matched_len_next, reading, false)
                            };
                            proof {
                                assert(agrees(
                                    found,
                                    self.spec_try_reading(hay@, pi as int, hi_next as int, reading),
                                    matched_len_next as int,
                                    hay@,
                                    hi_next as int,
                                ));
                            }
                            proof {
                                assert(all[k as int] == reading);
                                assert(self.spec_try_readings(
                                    hay@,
                                    pi as int,
                                    hi_next as int,
                                    all,
                                    k as int,
                                ) == (match self.spec_try_reading(
                                    hay@,
                                    pi as int,
                                    hi_next as int,
                                    reading,
                                ) {
                                    Some(m) => Some(m),
                                    None => self.spec_try_readings(
                                        hay@,
                                        pi as int,
                                        hi_next as int,
                                        all,
                                        k + 1,
                                    ),
                                }));
                            }
                            if found.is_some() {
                                return found;
                            }
                            k = k + 1;
                        }
                        None
                    },
                }
            },
        }
    }

    /// The match of the pattern from its `pi`-th character on against the
    /// haystack from its `hi`-th character on, before which `matched_len`
    /// bytes are matched, where the first character may be read in `lang`.
    pub fn sub_test(
        &self,
        hay: &[char],
        pi: usize,
        hi: usize,
        matched_len: usize,
        lang: Lang,
    ) -> (r: Option<SubMatch>)
        requires
            self.wf(),
            pi < self.spec_pattern().len(),
            hi <= hay.len(),
            matched_len + utf8_len(hay@.skip(hi as int)) <= usize::MAX,
        ensures
            agrees(
                r,
                self.spec_sub_test(hay@, pi as int, hi as int, lang),
                matched_len as int,
                hay@,
                hi as int,
            ),
        decreases self.spec_pattern().len() - pi, 4int,
    {
        if hi >= hay.len() {
            return None;
        }
        let hc = hay[hi];
        let hc_len = len_utf8(hc);
        proof {
            lemma_skip_split(hay@, hi as int, 1);
            assert(hay@.subrange(hi as int, hi + 1) == seq![hc]);
            lemma_utf8_len_push(Seq::empty(), hc);
            assert(Seq::<char>::empty().push(hc) == seq![hc]);
            assert(self.pattern@.len() == self.pattern_lowercase@.len());
        }
        let matched_len_next = matched_len + hc_len;
        let plain_eq = match &self.plain {
            Some(plain) => {
                if plain.case_insensitive {
                    hc.to_mono_lowercase() == self.pattern_lowercase[pi]
                } else {
                    hc == self.pattern[pi]
                }
            },
            None => false,
        };
        assert(plain_eq == self.plain_matches(hc, pi as int));
        assert(pi < self.pattern.len());
        if plain_eq {
            if pi + 1 == self.pattern.len() {
                let found = self.accept_here(
                    hay,
                    hi + 1,
                    matched_len_next,
                    false,
                    Ghost(Step::Plain),
                );
                proof {
                    lemma_rebase(
                        found,
                        self.accept(hay@, hi + 1, false, Step::Plain),
                        matched_len as int,
                        hay@,
                        hi as int,
                        matched_len_next as int,
                        hi + 1,
                    );
                }
                return found;
            } else {
                let found = self.sub_test(hay, pi + 1, hi + 1, matched_len_next, Lang::Any);
                proof {
                    let sub = self.spec_sub_test(hay@, pi + 1, hi + 1, Lang::Any);
                    lemma_rebase(
                        found,
                        sub,
                        matched_len as int,
                        hay@,
                        hi as int,
                        matched_len_next as int,
                        hi + 1,
                    );
                    assert(self.spec_sub_test(hay@, pi as int, hi as int, lang) == after_step(
                        Step::Plain,
                        sub,
                    ));
                }
                return found;
            }
        }
        if (hc as u32) < 128 {
            return None;
        }
        let romaji_allowed = match lang {
            Lang::Pinyin => false,
            _ => true,
        };
        let by_romaji = if romaji_allowed && self.romaji.is_some() {
            self.try_romaji(hay, pi, hi, matched_len)
        } else {
            None
        };
        if by_romaji.is_some() {
            return by_romaji;
        }
        let pinyin_allowed = match lang {
            Lang::Romaji => false,
            _ => true,
        };
        if pinyin_allowed && self.pinyin.is_some() {
            let found = self.try_readings(hay, pi, hi + 1, matched_len_next, hc);
            proof {
                lemma_rebase(
                    found,
                    self.spec_try_readings(
                        hay@,
                        pi as int,
                        hi + 1,
                        self.spec_pinyin()->0.config.data.table().spec_readings(hc),
                        0,
                    ),
                    matched_len as int,
                    hay@,
                    hi as int,
                    matched_len_next as int,
                    hi + 1,
                );
            }
            found
        } else {
            None
        }
    }
}

/// A match as integers and a flag.
pub open spec fn match_triple(m: Option<Match>) -> Option<(int, int, bool)> {
    match m {
        Some(m) => Some((m.spec_start() as int, m.spec_end() as int, m.spec_is_pattern_partial())),
        None => None,
    }
}

/// Whether a match starts and ends where characters of `hay` do, or where
/// `hay` ends.
pub open spec fn on_boundaries(hay: Seq<char>, m: Option<Match>) -> bool {
    match m {
        Some(m) => exists|i: int, j: int|
            {
                &&& 0 <= i <= j <= hay.len()
                &&& m.spec_start() == utf8_len(#[trigger] hay.take(i))
                &&& m.spec_end() == utf8_len(#[trigger] hay.take(j))
            },
        None => true,
    }
}

/// In an ASCII haystack every place is one where a character starts.
pub proof fn lemma_ascii_boundaries(hay: Seq<char>, m: Option<Match>)
    requires
        is_ascii_chars(hay),
        m is Some ==> m->0.spec_start() <= m->0.spec_end() <= hay.len(),
    ensures
        on_boundaries(hay, m),
{
    match m {
        Some(m) => {
            let i = m.spec_start() as int;
            let j = m.spec_end() as int;
            assert(is_ascii_chars(hay.take(i)));
            assert(is_ascii_chars(hay.take(j)));
            crate::unicode::utf8::lemma_utf8_len_ascii(hay.take(i));
            crate::unicode::utf8::lemma_utf8_len_ascii(hay.take(j));
        },
        None => {},
    }
}

/// A match of the ASCII matcher as a match that is not partial.
pub open spec fn whole(found: Option<(int, int)>) -> Option<(int, int, bool)> {
    match found {
        Some((start, end)) => Some((start, end, false)),
        None => None,
    }
}

/// The folded form of an ASCII pattern takes one byte for each character.
pub proof fn lemma_lowercase_ascii(pattern: Seq<char>)
    requires
        is_ascii_chars(pattern),
    ensures
        utf8_len(mono_lowercase_seq(pattern)) == pattern.len(),
        encode_utf8(pattern).len() == pattern.len(),
{
    let lower = mono_lowercase_seq(pattern);
    assert(is_ascii_chars(lower)) by {
        assert forall|i: int| 0 <= i < lower.len() implies '\0' <= #[trigger] lower[i] <= '\u{7f}'
            by {
            let c = pattern[i];
            assert('\0' <= c <= '\u{7f}');
        }
    }
    crate::unicode::utf8::lemma_utf8_len_ascii(lower);
    is_ascii_chars_encode_utf8(pattern);
}

impl<'a> Rules<'a> {
    /// The first match that starts at the `i`-th character of `hay` or
    /// later: none from where what is left of the haystack takes fewer
    /// bytes than `min_haystack_len`; at each character before, the match
    /// of the whole pattern from there, if there is one; and only the
    /// first character is tried where matches have to start at the start.
    pub open spec fn spec_find_from(&self, hay: Seq<char>, i: int) -> Option<(int, int, bool)>
        decreases hay.len() - i,
    {
        if i < 0 || i >= hay.len() {
            None
        } else if utf8_len(hay.skip(i)) < self.spec_min_haystack_len() {
            None
        } else {
            match self.spec_sub_test(hay, 0, i, Lang::Any) {
                Some(m) => Some(
                    (
                        utf8_len(hay.take(i)) as int,
                        (utf8_len(hay.take(i)) + utf8_len(hay.subrange(i, m.end))) as int,
                        m.partial,
                    ),
                ),
                None => if self.spec_starts_with() {
                    None
                } else {
                    self.spec_find_from(hay, i + 1)
                },
            }
        }
    }

    /// Whether a haystack that is ASCII throughout can hold the pattern:
    /// the pattern is matched as itself and is ASCII too.
    pub open spec fn matches_ascii(&self) -> bool {
        self.spec_plain() is Some && is_ascii_chars(self.spec_pattern())
    }

    /// The first match in a haystack that is ASCII throughout: no other
    /// pattern than one that is ASCII and matched as itself is found
    /// there.
    pub open spec fn spec_find_ascii(&self, hay: Seq<char>) -> Option<(int, int, bool)> {
        if self.matches_ascii() {
            whole(
                spec_ascii_find(
                    encode_utf8(self.spec_pattern()),
                    self.spec_plain()->0.case_insensitive,
                    self.spec_starts_with(),
                    self.spec_ends_with(),
                    encode_utf8(hay),
                ),
            )
        } else {
            None
        }
    }

    /// The match at the start of a haystack that is ASCII throughout.
    pub open spec fn spec_test_ascii(&self, hay: Seq<char>) -> Option<(int, int, bool)> {
        if self.matches_ascii() {
            whole(
                spec_ascii_test(
                    encode_utf8(self.spec_pattern()),
                    self.spec_plain()->0.case_insensitive,
                    self.spec_ends_with(),
                    encode_utf8(hay),
                ),
            )
        } else {
            None
        }
    }

    /// What `find` yields, in bytes:
    /// - nothing where matches have to start at the start and the input
    ///   says that its start is none;
    /// - the empty match at 0 for the empty pattern;
    /// - for an ASCII haystack, the first place at which the pattern
    ///   stands as itself;
    /// - else the first match from the first character on.
    pub open spec fn spec_find(&self, hay: Seq<char>, no_start: bool) -> Option<(int, int, bool)> {
        if self.spec_starts_with() && no_start {
            None
        } else if self.spec_pattern().len() == 0 {
            Some((0, 0, false))
        } else if is_ascii_chars(hay) {
            self.spec_find_ascii(hay)
        } else {
            self.spec_find_from(hay, 0)
        }
    }

    /// What `is_match` yields: whether `find` finds a match.
    pub open spec fn spec_is_match(&self, hay: Seq<char>, no_start: bool) -> bool {
        self.spec_find(hay, no_start) is Some
    }

    /// What `test` yields, in bytes: nothing for a haystack of fewer bytes
    /// than `min_haystack_len`; else the match that starts at the start.
    pub open spec fn spec_test(&self, hay: Seq<char>, no_start: bool) -> Option<(int, int, bool)> {
        if utf8_len(hay) < self.spec_min_haystack_len() || (self.spec_starts_with() && no_start) {
            None
        } else if self.spec_pattern().len() == 0 {
            Some((0, 0, false))
        } else if is_ascii_chars(hay) {
            self.spec_test_ascii(hay)
        } else {
            match self.spec_sub_test(hay, 0, 0, Lang::Any) {
                Some(m) => Some((0, utf8_len(hay.subrange(0, m.end)) as int, m.partial)),
                None => None,
            }
        }
    }
}

impl<'a> IbMatcher<'a> {
    /// Whether the haystack takes fewer bytes than any that the pattern
    /// can match.
    pub fn is_haystack_too_short(&self, haystack: &str) -> (r: bool)
        ensures
            r == (utf8_len(haystack@) < self.spec_min_haystack_len()),
            utf8_len(haystack@) <= usize::MAX,
    {
        proof {
            lemma_utf8_len_is_encoded_len(haystack@);
        }
        haystack.as_bytes().len() < self.min_haystack_len
    }

    /// No match is found in a haystack that is too short.
    proof fn lemma_too_short(&self, hay: Seq<char>, no_start: bool)
        requires
            self.wf(),
            utf8_len(hay) < self.spec_min_haystack_len(),
        ensures
            self.spec_find(hay, no_start) is None,
            self.spec_test(hay, no_start) is None,
    {
        lemma_utf8_len_is_encoded_len(hay);
        assert(hay.skip(0) == hay);
        if is_ascii_chars(self.pattern@) {
            lemma_lowercase_ascii(self.pattern@);
        }
        match self.ascii {
            AsciiMatcher::Ac(m) => {
                self.ascii.lemma_needs_room(encode_utf8(hay));
            },
            AsciiMatcher::Fail => {},
            AsciiMatcher::Regex(_) => {},
        }
    }

    fn find_with_is_ascii(&self, input: Input<'_>, is_ascii: bool) -> (r: Option<Match>)
        requires
            self.wf(),
            !(self.spec_starts_with() && input.no_start),
            is_ascii == is_ascii_chars(input.haystack@),
        ensures
            match_triple(r) == self.spec_find(input.haystack@, input.no_start),
            r is Some ==> r->0.spec_end() <= utf8_len(input.haystack@),
            on_boundaries(input.haystack@, r),
    {
        if self.pattern.len() == 0 {
            proof {
                assert(input.haystack@.take(0) == Seq::<char>::empty());
            }
            return Some(Match::new(0, 0, false));
        }
        let haystack = input.haystack;
        proof {
            lemma_utf8_len_is_encoded_len(haystack@);
        }
        if is_ascii {
            let found = self.ascii.find(haystack.as_bytes());
            proof {
                is_ascii_chars_encode_utf8(haystack@);
                lemma_ascii_boundaries(haystack@, found);
            }
            return found;
        }
        let hay = chars_of(haystack);
        let total = haystack.as_bytes().len();
        let mut i: usize = 0;
        let mut start: usize = 0;
        proof {
            assert(hay@.take(0) == Seq::<char>::empty());
            assert(hay@.skip(0) == hay@);
        }
        while i < hay.len()
            invariant
                self.wf(),
                self.pattern@.len() > 0,
                hay@ == haystack@,
                total == utf8_len(hay@),
                i <= hay.len(),
                start == utf8_len(hay@.take(i as int)),
                start + utf8_len(hay@.skip(i as int)) == total,
                haystack@ == input.haystack@,
                self.spec_find(haystack@, input.no_start) == self.spec_find_from(hay@, 0),
                self.spec_find_from(hay@, 0) == self.spec_find_from(hay@, i as int),
            decreases hay.len() - i,
        {
            if total - start < self.min_haystack_len {
                return None;
            }
            match self.sub_test(hay.as_slice(), 0, i, 0, Lang::Any) {
                Some(sub) => {
                    proof {
                        let m = self.spec_sub_test(hay@, 0, i as int, Lang::Any)->0;
                        lemma_bytes_split(hay@, i as int, m.end, hay@.len() as int);
                        assert(hay@.skip(i as int) == hay@.subrange(i as int, hay@.len() as int));
                        lemma_bytes_split(hay@, 0, i as int, m.end);
                        assert(hay@.subrange(0, i as int) == hay@.take(i as int));
                        assert(hay@.subrange(0, m.end) == hay@.take(m.end));
                    }
                    return Some(Match::new(start, start + sub.len, sub.is_pattern_partial));
                },
                None => {},
            }
            if self.starts_with {
                return None;
            }
            proof {
                lemma_skip_split(hay@, i as int, 1);
                assert(hay@.subrange(i as int, i + 1) == seq![hay@[i as int]]);
                lemma_utf8_len_push(Seq::empty(), hay@[i as int]);
                assert(Seq::<char>::empty().push(hay@[i as int]) == seq![hay@[i as int]]);
                assert(hay@.take(i + 1) == hay@.take(i as int).push(hay@[i as int]));
                lemma_utf8_len_push(hay@.take(i as int), hay@[i as int]);
            }
            start = start + len_utf8(hay[i]);
            i = i + 1;
        }
        None
    }

    /// The first match of the pattern in the haystack, with its offsets
    /// in bytes. None in a haystack of fewer bytes than
    /// `min_haystack_len`.
    pub fn find_input(&self, input: Input<'_>) -> (r: Option<Match>)
        requires
            self.wf(),
        ensures
            match_triple(r) == self.spec_find(input.haystack@, input.no_start),
            utf8_len(input.haystack@) < self.spec_min_haystack_len() ==> r is None,
            r is Some ==> r->0.spec_end() <= utf8_len(input.haystack@),
            on_boundaries(input.haystack@, r),
    {
        proof {
            if utf8_len(input.haystack@) < self.spec_min_haystack_len() {
                self.lemma_too_short(input.haystack@, input.no_start);
            }
        }
        if self.starts_with && input.no_start {
            return None;
        }
        let is_ascii = input.haystack.is_ascii();
        self.find_with_is_ascii(input, is_ascii)
    }

    /// `find_input` on a haystack of which nothing else is known.
    pub fn find(&self, haystack: &str) -> (r: Option<Match>)
        requires
            self.wf(),
        ensures
            match_triple(r) == self.spec_find(haystack@, false),
            utf8_len(haystack@) < self.spec_min_haystack_len() ==> r is None,
            r is Some ==> r->0.spec_end() <= utf8_len(haystack@),
            on_boundaries(haystack@, r),
    {
        self.find_input(Input::new(haystack))
    }

    /// Whether there is a match of the pattern in the haystack.
    pub fn is_match_input(&self, input: Input<'_>) -> (r: bool)
        requires
            self.wf(),
        ensures
            r == self.spec_is_match(input.haystack@, input.no_start),
    {
        if self.starts_with && input.no_start {
            return false;
        }
        if self.pattern.len() == 0 {
            return true;
        }
        let haystack = input.haystack;
        if haystack.is_ascii() {
            proof {
                is_ascii_chars_encode_utf8(haystack@);
            }
            return self.ascii.is_match(haystack.as_bytes());
        }
        self.find_with_is_ascii(input, false).is_some()
    }

    /// `is_match_input` on a haystack of which nothing else is known.
    pub fn is_match(&self, haystack: &str) -> (r: bool)
        requires
            self.wf(),
        ensures
            r == self.spec_is_match(haystack@, false),
    {
        self.is_match_input(Input::new(haystack))
    }

    /// The match of the pattern at the start of the haystack. None in a
    /// haystack of fewer bytes than `min_haystack_len`.
    ///
    /// Where there are several matches, the one that is found first is
    /// given, which is not always the longest.
    pub fn test_input(&self, input: Input<'_>) -> (r: Option<Match>)
        requires
            self.wf(),
        ensures
            match_triple(r) == self.spec_test(input.haystack@, input.no_start),
            utf8_len(input.haystack@) < self.spec_min_haystack_len() ==> r is None,
            r is Some ==> r->0.spec_start() == 0 && r->0.spec_end() <= utf8_len(input.haystack@),
            on_boundaries(input.haystack@, r),
    {
        let haystack = input.haystack;
        if self.is_haystack_too_short(haystack) || (self.starts_with && input.no_start) {
            return None;
        }
        if self.pattern.len() == 0 {
            proof {
                assert(haystack@.take(0) == Seq::<char>::empty());
            }
            return Some(Match::new(0, 0, false));
        }
        proof {
            lemma_utf8_len_is_encoded_len(haystack@);
        }
        if haystack.is_ascii() {
            let found = self.ascii.test(haystack.as_bytes());
            proof {
                is_ascii_chars_encode_utf8(haystack@);
                lemma_ascii_boundaries(haystack@, found);
            }
            return found;
        }
        let hay = chars_of(haystack);
        proof {
            assert(hay@.skip(0) == hay@);
        }
        match self.sub_test(hay.as_slice(), 0, 0, 0, Lang::Any) {
            Some(sub) => {
                proof {
                    let m = self.spec_sub_test(hay@, 0, 0, Lang::Any)->0;
                    lemma_bytes_split(hay@, 0, m.end, hay@.len() as int);
                    assert(hay@.subrange(0, hay@.len() as int) == hay@);
                    assert(hay@.subrange(0, m.end) == hay@.take(m.end));
                    assert(hay@.take(0) == Seq::<char>::empty());
                }
                Some(Match::new(0, sub.len, sub.is_pattern_partial))
            },
            None => None,
        }
    }

    /// `test_input` on a haystack of which nothing else is known.
    pub fn test(&self, haystack: &str) -> (r: Option<Match>)
        requires
            self.wf(),
        ensures
            match_triple(r) == self.spec_test(haystack@, false),
            utf8_len(haystack@) < self.spec_min_haystack_len() ==> r is None,
            r is Some ==> r->0.spec_start() == 0 && r->0.spec_end() <= utf8_len(haystack@),
            on_boundaries(haystack@, r),
    {
        self.test_input(Input::new(haystack))
    }

    /// The empty pattern matches every haystack, at its start and with
    /// nothing read, wherever matches have to start or end; but where
    /// they have to start at the start and the input says that its start
    /// is none.
    pub proof fn lemma_empty_pattern(&self, hay: Seq<char>, no_start: bool)
        requires
            self.wf(),
            self.spec_pattern().len() == 0,
        ensures
            self.spec_min_haystack_len() == 0,
            self.spec_find(hay, no_start) == (if self.spec_starts_with() && no_start {
                None
            } else {
                Some((0int, 0int, false))
            }),
            self.spec_test(hay, no_start) == self.spec_find(hay, no_start),
            self.spec_is_match(hay, no_start) == !(self.spec_starts_with() && no_start),
    {
        assert(self.pattern_lowercase@ =~= Seq::<char>::empty());
    }

    /// For an ASCII pattern that is matched as itself and an ASCII
    /// haystack, where matches may start and end anywhere, there is a
    /// match if and only if the haystack holds the pattern: the case of
    /// letters apart where plain matching ignores case.
    pub proof fn lemma_ascii_containment(&self, hay: Seq<char>)
        requires
            self.wf(),
            is_ascii_chars(self.spec_pattern()),
            is_ascii_chars(hay),
            self.spec_plain() is Some,
            !self.spec_starts_with(),
            !self.spec_ends_with(),
        ensures
            self.spec_is_match(hay, false) <==> exists|i: int|
                occurs(
                    encode_utf8(self.spec_pattern()),
                    self.spec_plain()->0.case_insensitive,
                    encode_utf8(hay),
                    i,
                ),
    {
        lemma_first_is_some(
            encode_utf8(self.pattern@),
            self.plain->0.case_insensitive,
            false,
            encode_utf8(hay),
        );
        if self.pattern@.len() == 0 {
            assert(encode_utf8(self.pattern@).len() == 0) by {
                is_ascii_chars_encode_utf8(self.pattern@);
            }
            assert(occurs(
                encode_utf8(self.pattern@),
                self.plain->0.case_insensitive,
                encode_utf8(hay),
                0,
            ));
        }
    }
}

impl<'a> IbMatcher<'a> {
    /// The matcher that is made of its parts.
    pub fn assemble(
        ascii: AsciiMatcher,
        pattern: Vec<char>,
        pattern_lowercase: Vec<char>,
        min_haystack_len: usize,
        starts_with: bool,
        ends_with: bool,
        plain: Option<PlainMatchConfig>,
        pinyin: Option<PinyinMatcher<'a>>,
        romaji: Option<RomajiMatcher<'a>>,
        mix_lang: bool,
    ) -> (r: IbMatcher<'a>)
        requires
            pattern_lowercase@ == mono_lowercase_seq(pattern@),
            ascii.wf(),
            pinyin is Some ==> pinyin->0.wf(),
            romaji is Some ==> romaji->0.config.wf(),
            min_haystack_len <= utf8_len(pattern_lowercase@),
            match ascii {
                AsciiMatcher::Ac(m) => {
                    &&& is_ascii_chars(pattern@)
                    &&& m.pattern() == encode_utf8(pattern@)
                    &&& plain is Some
                    &&& m.case_insensitive() == plain->0.case_insensitive
                    &&& m.starts_with() == starts_with
                    &&& m.ends_with() == ends_with
                },
                AsciiMatcher::Fail => plain is None || !is_ascii_chars(pattern@),
                AsciiMatcher::Regex(_) => false,
            },
        ensures
            r.wf(),
            r.rules() == (Rules {
                pattern: pattern@,
                min_haystack_len,
                starts_with,
                ends_with,
                plain,
                pinyin: match pinyin {
                    Some(p) => Some(p@),
                    None => None,
                },
                romaji,
                mix_lang,
            }),
    {
        IbMatcher {
            ascii,
            pattern,
            pattern_lowercase,
            min_haystack_len,
            starts_with,
            ends_with,
            plain,
            pinyin,
            romaji,
            mix_lang,
        }
    }

    /// What is known of every well-formed matcher.
    pub proof fn lemma_wf(&self)
        requires
            self.wf(),
        ensures
            self.spec_pattern_lowercase() == mono_lowercase_seq(self.spec_pattern()),
            self.spec_pinyin() is Some ==> self.spec_pinyin()->0.wf(),
            self.spec_romaji() is Some ==> self.spec_romaji()->0.config.wf(),
            self.spec_min_haystack_len() <= utf8_len(self.spec_pattern_lowercase()),
    {
    }
}

} // verus!
