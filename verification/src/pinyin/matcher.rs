//! A matcher for pinyin alone.
use vstd::prelude::*;
use crate::matcher::analyze::PatternAnalyzeConfig;
use crate::matcher::ascii::PlainMatchConfig;
use crate::matcher::builder::IbMatcherBuilder;
use crate::matcher::engine::{IbMatcher, match_triple};
use crate::matcher::matches::Match;
use crate::matcher::pinyin::PinyinMatchConfig;
use crate::pinyin::data::PinyinData;
use crate::pinyin::notation::{ASCII, ASCII_FIRST_LETTER, PinyinNotation};
use crate::unicode::utf8::utf8_len;

verus! {

/// What a `PinyinMatcher` is made of. See `PinyinMatcher::builder`.
pub struct PinyinMatcherBuilder<'a> {
    pub pattern: &'a str,
    pub analyze: bool,
    pub analyze_config: Option<PatternAnalyzeConfig>,
    pub case_insensitive: bool,
    pub is_pattern_partial: bool,
    pub pinyin_data: &'a PinyinData,
    pub pinyin_notations: PinyinNotation,
    pub pinyin_case_insensitive: bool,
}

impl<'a> PinyinMatcherBuilder<'a> {
    /// Whether the pattern is matched as itself without regard to case.
    /// Default: `true`.
    pub fn case_insensitive(self, case_insensitive: bool) -> (r: Self)
        ensures
            r == (PinyinMatcherBuilder { case_insensitive, ..self }),
    {
        PinyinMatcherBuilder { case_insensitive, ..self }
    }

    /// With `true`, the end of the pattern may match the start of a
    /// pinyin. Default: `false`.
    pub fn is_pattern_partial(self, is_pattern_partial: bool) -> (r: Self)
        ensures
            r == (PinyinMatcherBuilder { is_pattern_partial, ..self }),
    {
        PinyinMatcherBuilder { is_pattern_partial, ..self }
    }

    /// The dictionary, which must hold the strings of the notations.
    pub fn pinyin_data(self, pinyin_data: &'a PinyinData) -> (r: Self)
        ensures
            r == (PinyinMatcherBuilder { pinyin_data, ..self }),
    {
        PinyinMatcherBuilder { pinyin_data, ..self }
    }

    /// Default: `Ascii` and `AsciiFirstLetter`.
    pub fn pinyin_notations(self, pinyin_notations: PinyinNotation) -> (r: Self)
        ensures
            r == (PinyinMatcherBuilder { pinyin_notations, ..self }),
    {
        PinyinMatcherBuilder { pinyin_notations, ..self }
    }

    /// Whether upper case letters can match pinyins. Default: `false`.
    pub fn pinyin_case_insensitive(self, pinyin_case_insensitive: bool) -> (r: Self)
        ensures
            r == (PinyinMatcherBuilder { pinyin_case_insensitive, ..self }),
    {
        PinyinMatcherBuilder { pinyin_case_insensitive, ..self }
    }

    pub fn analyze_config(self, config: PatternAnalyzeConfig) -> (r: Self)
        ensures
            r == (PinyinMatcherBuilder { analyze_config: Some(config), ..self }),
    {
        PinyinMatcherBuilder { analyze_config: Some(config), ..self }
    }

    pub fn analyze(self, analyze: bool) -> (r: Self)
        ensures
            r == (PinyinMatcherBuilder { analyze, ..self }),
    {
        PinyinMatcherBuilder { analyze, ..self }
    }

    /// What the matcher is made of, as an `IbMatcher` is made.
    pub open spec fn spec_builder(&self) -> IbMatcherBuilder<'a, 'a> {
        IbMatcherBuilder {
            pattern: self.pattern,
            lang_only: None,
            analyze: self.analyze,
            analyze_config: self.analyze_config,
            plain: Some(PlainMatchConfig { case_insensitive: self.case_insensitive }),
            pinyin: Some(
                PinyinMatchConfig {
                    notations: self.pinyin_notations,
                    data: self.pinyin_data,
                    case_insensitive: self.pinyin_case_insensitive,
                    allow_partial_pattern: true,
                },
            ),
            romaji: None,
            is_pattern_partial: self.is_pattern_partial,
            starts_with: false,
            ends_with: false,
            mix_lang: false,
        }
    }

    /// The matcher; `None` where the automaton for ASCII haystacks could
    /// not be built.
    pub fn build(self) -> (r: Option<PinyinMatcher<'a>>)
        requires
            self.pinyin_data.wf(),
            self.pinyin_data.inited().spec_contains(self.pinyin_notations),
        ensures
            r is Some == self.spec_builder().spec_buildable(),
            r is Some ==> self.spec_builder().builds(r->0.matcher),
    {
        let config = PinyinMatchConfig::builder(self.pinyin_notations,
            self.pinyin_data).case_insensitive(
            self.pinyin_case_insensitive,
        ).build();
        let builder = IbMatcher::builder(self.pattern).analyze(self.analyze).case_insensitive(
            self.case_insensitive,
        ).is_pattern_partial(self.is_pattern_partial).pinyin(config);
        let builder = match self.analyze_config {
            Some(c) => builder.analyze_config(c),
            None => builder,
        };
        match builder.build() {
            Some(matcher) => Some(PinyinMatcher { matcher }),
            None => None,
        }
    }
}

/// A matcher of a pattern as itself and as pinyin.
pub struct PinyinMatcher<'a> {
    pub matcher: IbMatcher<'a>,
}

impl<'a> PinyinMatcher<'a> {
    /// What a matcher for `pattern` is made of, with the defaults: the
    /// pattern is matched as itself without regard to case, and as pinyin
    /// in `Ascii` and `AsciiFirstLetter`, where upper case letters do not
    /// match pinyins.
    pub fn builder(pattern: &'a str, pinyin_data: &'a PinyinData) -> (r: PinyinMatcherBuilder<'a>)
        ensures
            r == (PinyinMatcherBuilder {
                pattern,
                analyze: false,
                analyze_config: None,
                case_insensitive: true,
                is_pattern_partial: false,
                pinyin_data,
                pinyin_notations: PinyinNotation(ASCII | ASCII_FIRST_LETTER),
                pinyin_case_insensitive: false,
            }),
    {
        PinyinMatcherBuilder {
            pattern,
            analyze: false,
            analyze_config: None,
            case_insensitive: true,
            is_pattern_partial: false,
            pinyin_data,
            pinyin_notations: PinyinNotation::ascii().union(PinyinNotation::ascii_first_letter()),
            pinyin_case_insensitive: false,
        }
    }

    /// The first match of the pattern in the haystack.
    pub fn find(&self, haystack: &str) -> (r: Option<Match>)
        requires
            self.matcher.wf(),
        ensures
            match_triple(r) == self.matcher.spec_find(haystack@, false),
            utf8_len(haystack@) < self.matcher.spec_min_haystack_len() ==> r is None,
    {
        self.matcher.find(haystack)
    }

    /// Whether there is a match of the pattern in the haystack.
    pub fn is_match(&self, haystack: &str) -> (r: bool)
        requires
            self.matcher.wf(),
        ensures
            r == self.matcher.spec_is_match(haystack@, false),
    {
        self.matcher.is_match(haystack)
    }

    /// The match of the pattern at the start of the haystack.
    pub fn test(&self, haystack: &str) -> (r: Option<Match>)
        requires
            self.matcher.wf(),
        ensures
            match_triple(r) == self.matcher.spec_test(haystack@, false),
            utf8_len(haystack@) < self.matcher.spec_min_haystack_len() ==> r is None,
    {
        self.matcher.test(haystack)
    }

    /// Whether the haystack takes fewer bytes than any that the pattern
    /// can match.
    pub fn is_haystack_too_short(&self, haystack: &str) -> (r: bool)
        ensures
            r == (utf8_len(haystack@) < self.matcher.spec_min_haystack_len()),
    {
        self.matcher.is_haystack_too_short(haystack)
    }
}

} // verus!
