//! The fewest bytes of a haystack that a pattern can match.
use vstd::prelude::*;
use crate::matcher::analyze::{spec_div_ceil, spec_unit, TRAVERSAL_LIMIT};
use crate::matcher::ascii::PlainMatchConfig;
use crate::matcher::builder::IbMatcherBuilder;
use crate::matcher::engine::{IbMatcher, lemma_bytes_split, Lang, Rules, SpecMatch};
use crate::matcher::pinyin::{lemma_tried_are_used, spec_tried};
use crate::pinyin::notation::{lemma_max_len_of_member, PinyinNotation};
use crate::pinyin::table::{lemma_notation_of_valid, spec_notation, valid_pinyin};
use crate::romaji::MIN_LEN;
use crate::unicode::case::mono_lowercase_seq;
use crate::unicode::utf8::{
    char_len_utf8, lemma_utf8_len_bounds, lemma_utf8_len_push, Relation, spec_relate, utf8_len,
};

verus! {

/// One character takes the bytes of its encoding.
pub proof fn lemma_one_char(s: Seq<char>, i: int)
    requires
        0 <= i < s.len(),
    ensures
        utf8_len(s.subrange(i, i + 1)) == char_len_utf8(s[i]),
        1 <= char_len_utf8(s[i]) <= 4,
{
    assert(s.subrange(i, i + 1) == Seq::<char>::empty().push(s[i]));
    lemma_utf8_len_push(Seq::empty(), s[i]);
}

/// Whether every notation of `group` is one of the ten and its strings
/// take no more than `unit` bytes.
pub open spec fn group_within(group: Seq<PinyinNotation>, unit: nat) -> bool {
    forall|j: int|
        0 <= j < group.len() ==> (#[trigger] group[j]).is_single() && group[j].spec_max_len()->0
            <= unit
}

/// Whether every character of `pattern` that is matched as itself takes no
/// more than `unit` bytes when it is folded, or is matched with regard to
/// case and is its own folded form: a character of a haystack that it
/// matches then takes no fewer bytes than one `unit`-th of its own.
#[verifier::opaque]
pub open spec fn plain_within(
    pattern: Seq<char>,
    plain: Option<PlainMatchConfig>,
    unit: nat,
) -> bool {
    plain is Some ==> forall|pi: int|
        0 <= pi < pattern.len() ==> {
            ||| char_len_utf8(#[trigger] mono_lowercase_seq(pattern)[pi]) <= unit
            ||| !plain->0.case_insensitive && pattern[pi] == mono_lowercase_seq(pattern)[pi]
        }
}

/// What holds for one unit holds for a larger one.
pub proof fn lemma_plain_within_more(
    pattern: Seq<char>,
    plain: Option<PlainMatchConfig>,
    unit: nat,
    more: nat,
)
    requires
        plain_within(pattern, plain, unit),
        unit <= more,
    ensures
        plain_within(pattern, plain, more),
{
    reveal(plain_within);
}

impl<'a> Rules<'a> {
    /// The bytes of the folded pattern from its `pi`-th character on.
    pub open spec fn rest_bytes(&self, pi: int) -> nat {
        utf8_len(
            self.spec_pattern_lowercase().subrange(pi, self.spec_pattern_lowercase().len() as int),
        )
    }

    /// What is left of the folded pattern from its `pi`-th character on:
    /// its characters, or its bytes.
    pub open spec fn rest(&self, by_chars: bool, pi: int) -> nat {
        if by_chars {
            (self.pattern.len() - pi) as nat
        } else {
            self.rest_bytes(pi)
        }
    }

    /// Whether no step of a match reads more than `unit` characters, or
    /// bytes, of the folded pattern for one byte of the haystack, readings
    /// of romaji apart:
    /// - the strings of the notations that are tried take no more than
    ///   `unit` bytes;
    /// - where bytes are counted, a character of the pattern that is
    ///   matched as itself takes no more than `unit` bytes when it is
    ///   folded, or is matched with regard to case and is its own folded
    ///   form.
    pub open spec fn reads_within(&self, unit: nat, by_chars: bool) -> bool {
        &&& unit >= 1
        &&& self.pinyin is Some ==> {
            &&& self.pinyin->0.wf()
            &&& group_within(self.pinyin->0.prefix_group, unit)
            &&& group_within(self.pinyin->0.others, unit)
        }
        &&& by_chars || self.plain_within(unit)
    }

    /// See `plain_within`.
    pub open spec fn plain_within(&self, unit: nat) -> bool {
        plain_within(self.pattern, self.plain, unit)
    }

    /// Whether a match from the character `hi` of `hay` on, if there is
    /// one, reads as many bytes of the haystack as the rest of the folded
    /// pattern asks for at `unit` characters, or bytes, of it for one byte
    /// of the haystack; or, with romaji, two bytes at least.
    pub open spec fn covered(
        &self,
        unit: nat,
        by_chars: bool,
        hay: Seq<char>,
        pi: int,
        hi: int,
        found: Option<SpecMatch>,
    ) -> bool {
        match found {
            Some(m) => {
                &&& hi < m.end <= hay.len()
                &&& {
                    ||| self.rest(by_chars, pi) <= unit * utf8_len(hay.subrange(hi, m.end))
                    ||| self.romaji is Some && utf8_len(hay.subrange(hi, m.end)) >= MIN_LEN
                }
            },
            None => true,
        }
    }

    /// Every match reads as many bytes of the haystack as the rest of the
    /// pattern asks for.
    pub proof fn lemma_sub_test_covered(
        &self,
        unit: nat,
        by_chars: bool,
        hay: Seq<char>,
        pi: int,
        hi: int,
        lang: Lang,
    )
        requires
            self.romaji_wf(),
            self.reads_within(unit, by_chars),
        ensures
            self.covered(unit, by_chars, hay, pi, hi, self.spec_sub_test(hay, pi, hi, lang)),
        decreases self.spec_pattern().len() - pi, 4int, 0int,
    {
        let lower = self.spec_pattern_lowercase();
        let n = lower.len() as int;
        if pi < 0 || pi >= self.spec_pattern().len() || hi < 0 || hi >= hay.len() {
        } else if self.plain_matches(hay[hi], pi) {
            lemma_one_char(hay, hi);
            lemma_one_char(lower, pi);
            let bp = if by_chars {
                1
            } else {
                char_len_utf8(lower[pi])
            };
            let bh = char_len_utf8(hay[hi]);
            assert(self.rest(by_chars, pi) == bp + self.rest(by_chars, pi + 1)) by {
                lemma_bytes_split(lower, pi, pi + 1, n);
            }
            assert(bp <= unit * bh) by {
                reveal(plain_within);
                if bp <= unit {
                    assert(unit <= unit * bh) by (nonlinear_arith)
                        requires
                            bh >= 1,
                    ;
                } else {
                    assert(bh <= unit * bh) by (nonlinear_arith)
                        requires
                            unit >= 1,
                    ;
                }
            }
            if pi + 1 == self.spec_pattern().len() {
            } else {
                self.lemma_sub_test_covered(unit, by_chars, hay, pi + 1, hi + 1, Lang::Any);
                match self.spec_sub_test(hay, pi + 1, hi + 1, Lang::Any) {
                    Some(m) => {
                        lemma_bytes_split(lower, pi, pi + 1, n);
                        lemma_bytes_split(hay, hi, hi + 1, m.end);
                        let rest = utf8_len(hay.subrange(hi + 1, m.end));
                        if self.rest(by_chars, pi + 1) <= unit * rest {
                            assert(bp + unit * rest <= unit * (bh + rest)) by (nonlinear_arith)
                                requires
                                    bp <= unit * bh,
                            ;
                        }
                    },
                    None => {},
                }
            }
        } else if (hay[hi] as u32) < 128 {
        } else {
            lemma_one_char(hay, hi);
            if self.spec_romaji() is Some && lang != Lang::Pinyin {
                self.lemma_sub_test_fits(hay, pi, hi, lang);
                match self.spec_sub_test(hay, pi, hi, lang) {
                    Some(m) => {
                        lemma_bytes_split(hay, hi, hi + 1, m.end);
                    },
                    None => {},
                }
            }
            if self.spec_pinyin() is Some && lang != Lang::Romaji {
                let table = self.spec_pinyin()->0.config.data.table();
                self.spec_pinyin()->0.config.data.lemma_wf();
                table.lemma_readings_valid(hay[hi]);
                self.lemma_try_readings_covered(
                    unit,
                    by_chars,
                    hay,
                    pi,
                    hi,
                    table.spec_readings(hay[hi]),
                    0,
                );
            }
        }
    }

    proof fn lemma_step_covered(
        &self,
        unit: nat,
        by_chars: bool,
        hay: Seq<char>,
        pi: int,
        hi: int,
        reading: Seq<char>,
    )
        requires
            self.romaji_wf(),
            self.reads_within(unit, by_chars),
            0 <= pi < self.spec_pattern().len(),
            0 <= hi < hay.len(),
            utf8_len(reading) <= unit,
            mono_lowercase_seq(reading) == reading,
        ensures
            self.covered(
                unit,
                by_chars,
                hay,
                pi,
                hi,
                self.spec_step(hay, pi, hi + 1, reading, Lang::Pinyin).1,
            ),
        decreases self.spec_pattern().len() - pi, 0int, 0int,
    {
        let lower = self.spec_pattern_lowercase();
        let n = lower.len() as int;
        let k = reading.len() as int;
        lemma_one_char(hay, hi);
        lemma_utf8_len_bounds(reading);
        let bh = char_len_utf8(hay[hi]);
        assert(unit <= unit * bh) by (nonlinear_arith)
            requires
                bh >= 1,
        ;
        {
            let tail = self.tail(Lang::Pinyin, pi);
            let ci = self.lang_case_insensitive(Lang::Pinyin);
            let folded = lower.subrange(pi, n);
            assert(ci ==> tail =~= folded);
            assert(!ci ==> mono_lowercase_seq(tail) =~= folded);
            match spec_relate(reading, tail) {
                Relation::Mismatch => {},
                Relation::Partial => {
                    assert(tail == reading.subrange(0, n - pi));
                    assert(folded =~= reading.subrange(0, n - pi)) by {
                        assert(mono_lowercase_seq(reading.subrange(0, n - pi))
                            =~= mono_lowercase_seq(reading).subrange(0, n - pi));
                    }
                    lemma_bytes_split(reading, 0, n - pi, k);
                    assert(reading.subrange(0, k) == reading);
                },
                Relation::Exact => {
                    assert(tail =~= reading);
                    assert(folded =~= reading);
                },
                Relation::Prefix => {
                    assert(tail.subrange(0, k) == reading);
                    assert(lower.subrange(pi, pi + k) =~= reading) by {
                        assert(mono_lowercase_seq(tail.subrange(0, k)) =~= mono_lowercase_seq(
                            tail,
                        ).subrange(0, k));
                        assert(folded.subrange(0, k) =~= lower.subrange(pi, pi + k));
                    }
                    if 0 < k && pi + k < self.spec_pattern().len() {
                        let next = self.next_lang(Lang::Pinyin);
                        self.lemma_sub_test_covered(unit, by_chars, hay, pi + k, hi + 1, next);
                        match self.spec_sub_test(hay, pi + k, hi + 1, next) {
                            Some(m) => {
                                lemma_bytes_split(lower, pi, pi + k, n);
                                lemma_bytes_split(hay, hi, hi + 1, m.end);
                                let rest = utf8_len(hay.subrange(hi + 1, m.end));
                                if self.rest(by_chars, pi + k) <= unit * rest {
                                    assert(unit + unit * rest <= unit * (bh + rest))
                                        by (nonlinear_arith)
                                        requires
                                            bh >= 1,
                                    ;
                                }
                            },
                            None => {},
                        }
                    }
                },
            }
        }
    }

    proof fn lemma_try_group_covered(
        &self,
        unit: nat,
        by_chars: bool,
        hay: Seq<char>,
        pi: int,
        hi: int,
        reading: u16,
        group: Seq<PinyinNotation>,
        j: int,
        breaks: bool,
    )
        requires
            self.romaji_wf(),
            self.reads_within(unit, by_chars),
            0 <= pi < self.spec_pattern().len(),
            0 <= hi < hay.len(),
            group_within(group, unit),
            self.spec_pinyin() is Some ==> reading
                < self.spec_pinyin()->0.config.data.table().count(),
        ensures
            self.covered(
                unit,
                by_chars,
                hay,
                pi,
                hi,
                self.spec_try_group(hay, pi, hi + 1, reading, group, j, breaks),
            ),
        decreases self.spec_pattern().len() - pi, 1int, group.len() - j,
    {
        if j < 0 || j >= group.len() || self.spec_pinyin() is None {
        } else {
            let table = self.spec_pinyin()->0.config.data.table();
            self.spec_pinyin()->0.config.data.lemma_wf();
            assert(valid_pinyin(table.unicode(reading as int)));
            lemma_notation_of_valid(group[j], table.unicode(reading as int));
            let text = spec_notation(group[j], table.unicode(reading as int))->0;
            self.lemma_step_covered(unit, by_chars, hay, pi, hi, text);
            self.lemma_try_group_covered(
                unit,
                by_chars,
                hay,
                pi,
                hi,
                reading,
                group,
                j + 1,
                breaks,
            );
        }
    }

    proof fn lemma_try_reading_covered(
        &self,
        unit: nat,
        by_chars: bool,
        hay: Seq<char>,
        pi: int,
        hi: int,
        reading: u16,
    )
        requires
            self.romaji_wf(),
            self.reads_within(unit, by_chars),
            0 <= pi < self.spec_pattern().len(),
            0 <= hi < hay.len(),
            self.spec_pinyin() is Some ==> reading
                < self.spec_pinyin()->0.config.data.table().count(),
        ensures
            self.covered(
                unit,
                by_chars,
                hay,
                pi,
                hi,
                self.spec_try_reading(hay, pi, hi + 1, reading),
            ),
        decreases self.spec_pattern().len() - pi, 2int, 0int,
    {
        if self.spec_pinyin() is Some {
            let rules = self.spec_pinyin()->0;
            self.lemma_try_group_covered(
                unit,
                by_chars,
                hay,
                pi,
                hi,
                reading,
                rules.prefix_group,
                0,
                true,
            );
            self.lemma_try_group_covered(
                unit,
                by_chars,
                hay,
                pi,
                hi,
                reading,
                rules.others,
                0,
                false,
            );
        }
    }

    proof fn lemma_try_readings_covered(
        &self,
        unit: nat,
        by_chars: bool,
        hay: Seq<char>,
        pi: int,
        hi: int,
        readings: Seq<u16>,
        k: int,
    )
        requires
            self.romaji_wf(),
            self.reads_within(unit, by_chars),
            0 <= pi < self.spec_pattern().len(),
            0 <= hi < hay.len(),
            self.spec_pinyin() is Some ==> forall|q: int|
                0 <= q < readings.len() ==> (#[trigger] readings[q])
                    < self.spec_pinyin()->0.config.data.table().count(),
        ensures
            self.covered(
                unit,
                by_chars,
                hay,
                pi,
                hi,
                self.spec_try_readings(hay, pi, hi + 1, readings, k),
            ),
        decreases self.spec_pattern().len() - pi, 3int, readings.len() - k,
    {
        if 0 <= k < readings.len() {
            self.lemma_try_reading_covered(unit, by_chars, hay, pi, hi, readings[k]);
            self.lemma_try_readings_covered(unit, by_chars, hay, pi, hi, readings, k + 1);
        }
    }

    /// Where no step reads more than `unit` characters, or bytes, of the
    /// folded pattern for one byte of the haystack, and `min_haystack_len`
    /// is no more than the characters, or bytes, of the folded pattern
    /// divided by `unit` and rounded up, nor, with romaji, than two: every
    /// match from the character `i`
    /// of a haystack on leaves the haystack long enough from there. No
    /// match is lost to the test of the length.
    pub proof fn lemma_enough_bytes(&self, unit: nat, by_chars: bool, hay: Seq<char>, i: int)
        requires
            self.romaji_wf(),
            self.reads_within(unit, by_chars),
            self.min_haystack_len <= spec_div_ceil(self.rest(by_chars, 0), unit),
            self.romaji is Some ==> self.min_haystack_len <= MIN_LEN,
            self.spec_sub_test(hay, 0, i, Lang::Any) is Some,
        ensures
            utf8_len(hay.skip(i)) >= self.min_haystack_len,
    {
        let lower = self.spec_pattern_lowercase();
        self.lemma_sub_test_covered(unit, by_chars, hay, 0, i, Lang::Any);
        let m = self.spec_sub_test(hay, 0, i, Lang::Any)->0;
        lemma_bytes_split(hay, i, m.end, hay.len() as int);
        assert(hay.subrange(i, hay.len() as int) == hay.skip(i));
        assert(lower.subrange(0, lower.len() as int) == lower);
        let p = self.rest(by_chars, 0);
        let h = utf8_len(hay.subrange(i, m.end));
        if p <= unit * h {
            lemma_utf8_len_bounds(lower);
            assert(spec_div_ceil(p, unit) <= h) by (nonlinear_arith)
                requires
                    unit >= 1,
                    p <= unit * h,
                    spec_div_ceil(p, unit) == (if p == 0 {
                        0
                    } else {
                        (p - 1) / (unit as int) + 1
                    }),
            ;
        }
    }
}

impl<'p, 'a> IbMatcherBuilder<'p, 'a> {
    /// The most bytes of the pattern that one character of a haystack is
    /// taken to stand for: the `max_len` of the notations that are asked
    /// for, and 1 without pinyin.
    pub open spec fn spec_unit(&self) -> nat {
        spec_unit(
            match self.spec_pinyin() {
                Some(p) => Some(p.notations),
                None => None,
            },
        )
    }

    /// Of a matcher that is built: every notation that it tries is one of
    /// the ten and one that is asked for, so that its strings take no more
    /// bytes than `spec_unit`.
    pub proof fn lemma_tried_within(&self, m: IbMatcher<'a>)
        requires
            self.builds(m),
        ensures
            m.rules().romaji_wf(),
            m.rules().pinyin is Some ==> {
                &&& self.spec_pinyin() is Some
                &&& m.rules().pinyin->0.wf()
                &&& group_within(m.rules().pinyin->0.prefix_group, self.spec_unit())
                &&& group_within(m.rules().pinyin->0.others, self.spec_unit())
                &&& forall|j: int|
                    0 <= j < m.rules().pinyin->0.prefix_group.len()
                        ==> self.spec_pinyin()->0.notations.spec_contains(
                        #[trigger] m.rules().pinyin->0.prefix_group[j],
                    )
                &&& forall|j: int|
                    0 <= j < m.rules().pinyin->0.others.len()
                        ==> self.spec_pinyin()->0.notations.spec_contains(
                        #[trigger] m.rules().pinyin->0.others[j],
                    )
            },
    {
        let rules = m.rules();
        let unit = self.spec_unit();
        m.lemma_wf();
        if self.spec_pinyin() is Some {
            let asked = self.spec_pinyin()->0.notations;
            let used = self.spec_analysis().used;
            let tried = spec_tried(used);
            let first = rules.pinyin->0.prefix_group;
            let second = rules.pinyin->0.others;
            lemma_tried_are_used(used);
            assert forall|j: int| 0 <= j < first.len() implies (#[trigger] first[j]).is_single()
                && first[j].spec_max_len()->0 <= unit && asked.spec_contains(first[j]) by {
                assert(tried[j] == first[j]);
                assert(tried.contains(first[j]));
                let a = asked.0;
                let u = used.0;
                let b = first[j].0;
                assert(a & u == u && u & b == b ==> a & b == b) by (bit_vector);
                lemma_max_len_of_member(asked, first[j]);
            }
            assert forall|j: int| 0 <= j < second.len() implies (#[trigger] second[j]).is_single()
                && second[j].spec_max_len()->0 <= unit && asked.spec_contains(second[j]) by {
                assert(tried[first.len() + j] == second[j]);
                assert(tried.contains(second[j]));
                let a = asked.0;
                let u = used.0;
                let b = second[j].0;
                assert(a & u == u && u & b == b ==> a & b == b) by (bit_vector);
                lemma_max_len_of_member(asked, second[j]);
            }
        }
    }

    /// Of a matcher that is built without a walk through the ways to read
    /// the pattern, or with one that is given up for its many steps, and
    /// of a pattern of which every character that is matched as itself
    /// takes no more bytes, when it is folded, than `spec_unit`, or is
    /// matched with regard to case and is its own folded form: where the
    /// pattern is matched from a character of a haystack on, no fewer
    /// bytes than `min_haystack_len` are left from there.
    pub proof fn lemma_estimate_is_bound(&self, m: IbMatcher<'a>, hay: Seq<char>, i: int)
        requires
            self.builds(m),
            !self.spec_traversal() || self.spec_analysis().count > TRAVERSAL_LIMIT,
            utf8_len(mono_lowercase_seq(self.pattern@)) <= usize::MAX,
            self.spec_rules().plain_within(self.spec_unit()),
            m.spec_sub_test(hay, 0, i, Lang::Any) is Some,
        ensures
            utf8_len(hay.skip(i)) >= m.spec_min_haystack_len(),
    {
        let rules = m.rules();
        let unit = self.spec_unit();
        let p = utf8_len(mono_lowercase_seq(self.pattern@));
        assert(spec_div_ceil(p, unit) <= p) by (nonlinear_arith)
            requires
                unit >= 1,
                spec_div_ceil(p, unit) == (if p == 0 {
                    0
                } else {
                    (p - 1) / (unit as int) + 1
                }),
        ;
        self.lemma_tried_within(m);
        assert(rules.rest(false, 0) == p) by {
            let lower = mono_lowercase_seq(self.pattern@);
            assert(lower.subrange(0, lower.len() as int) == lower);
        }
        rules.lemma_enough_bytes(unit, false, hay, i);
    }

    /// Of a matcher for a pattern of which a character that is matched as
    /// itself may match a character of fewer bytes than its own: where
    /// the pattern is matched from a character of a haystack on, no fewer
    /// bytes than `min_haystack_len` are left from there.
    pub proof fn lemma_chars_are_bound(&self, m: IbMatcher<'a>, hay: Seq<char>, i: int)
        requires
            self.builds(m),
            utf8_len(mono_lowercase_seq(self.pattern@)) <= usize::MAX,
            !plain_within(self.pattern@, self.spec_plain(), 1),
            m.spec_sub_test(hay, 0, i, Lang::Any) is Some,
        ensures
            utf8_len(hay.skip(i)) >= m.spec_min_haystack_len(),
    {
        let rules = m.rules();
        let unit = self.spec_unit();
        let n = self.pattern@.len();
        lemma_utf8_len_bounds(mono_lowercase_seq(self.pattern@));
        assert(spec_div_ceil(n, unit) <= n) by (nonlinear_arith)
            requires
                unit >= 1,
                spec_div_ceil(n, unit) == (if n == 0 {
                    0
                } else {
                    (n - 1) / (unit as int) + 1
                }),
        ;
        self.lemma_tried_within(m);
        rules.lemma_enough_bytes(unit, true, hay, i);
    }
}

} // verus!
