//! How a matcher is made.
use vstd::prelude::*;
use vstd::utf8::{encode_utf8, is_ascii_chars, is_ascii_chars_encode_utf8};
use crate::matcher::analyze::{
    estimate_len, PatternAnalyzeConfig, PatternAnalyzer, spec_analyze, spec_estimate, WalkSetting,
};
use crate::matcher::bound::plain_within;
use crate::matcher::ascii::{automaton_builds, AsciiMatcher, is_ascii_bytes, PlainMatchConfig};
use crate::matcher::engine::{IbMatcher, Rules};
use crate::matcher::pattern::{LangOnly, Pattern};
use crate::matcher::pinyin::{
    PinyinAnalyzeResult, PinyinMatchConfig, PinyinMatcher, PinyinRules, spec_independent_group,
    spec_prefix_group,
};
use crate::unicode::utf8::utf8_len;
use crate::matcher::romaji::{RomajiMatchConfig, RomajiMatcher};
use crate::pinyin::notation::PinyinNotation;
use crate::unicode::case::{mono_lowercase_seq, StrToMonoLowercase};
use crate::unicode::utf8::chars_of;

verus! {

/// What the analysis of a pattern finds: the pattern in lower case is
/// analyzed, with a walk or without.
pub open spec fn analysis_of(
    pattern: Seq<char>,
    pinyin: Option<PinyinMatchConfig<'_>>,
    romaji: bool,
    is_pattern_partial: bool,
    traversal: bool,
) -> crate::matcher::analyze::WalkState {
    spec_analyze(
        WalkSetting {
            pattern: mono_lowercase_seq(pattern),
            pinyin,
            partial: match pinyin {
                Some(p) => is_pattern_partial && p.allow_partial_pattern,
                None => false,
            },
        },
        romaji,
        traversal,
    )
}

/// The fewest bytes of a haystack in which a matcher looks for `pattern`:
/// as many as the analysis found to do. Where a character of the pattern
/// that is matched as itself may match a character of fewer bytes than
/// its own, for all that is known of their folded forms, no more than the
/// estimate for a pattern of as many bytes as this one has characters.
pub open spec fn min_len_of(
    pattern: Seq<char>,
    plain: Option<PlainMatchConfig>,
    pinyin: Option<PinyinMatchConfig<'_>>,
    romaji: bool,
    is_pattern_partial: bool,
    traversal: bool,
) -> usize {
    let found = analysis_of(pattern, pinyin, romaji, is_pattern_partial, traversal).min_len;
    let by_chars = spec_estimate(
        pattern.len(),
        match pinyin {
            Some(p) => Some(p.notations),
            None => None,
        },
        romaji,
    );
    if plain_within(pattern, plain, 1) || found <= by_chars {
        found
    } else {
        by_chars as usize
    }
}

/// What a matcher for `pattern` matches by: it holds the pattern and the
/// options, tries the notations of pinyin in the order of the prefix group
/// of the notations that the analysis found used, then the others, and
/// takes a haystack for too short that has fewer bytes than `min_len_of`.
pub open spec fn rules_of<'a>(
    pattern: Seq<char>,
    plain: Option<PlainMatchConfig>,
    pinyin: Option<PinyinMatchConfig<'a>>,
    romaji: Option<RomajiMatchConfig<'a>>,
    is_pattern_partial: bool,
    starts_with: bool,
    ends_with: bool,
    mix_lang: bool,
    traversal: bool,
) -> Rules<'a> {
    let analysis = analysis_of(pattern, pinyin, romaji is Some, is_pattern_partial, traversal);
    Rules {
        pattern,
        min_haystack_len: min_len_of(
            pattern,
            plain,
            pinyin,
            romaji is Some,
            is_pattern_partial,
            traversal,
        ),
        starts_with,
        ends_with,
        plain,
        pinyin: match pinyin {
            Some(config) => Some(
                PinyinRules {
                    config,
                    partial_pattern: is_pattern_partial && config.allow_partial_pattern,
                    prefix_group: spec_prefix_group(analysis.used),
                    others: spec_independent_group(analysis.used),
                },
            ),
            None => None,
        },
        romaji: match romaji {
            Some(config) => Some(
                RomajiMatcher {
                    config,
                    partial_pattern: is_pattern_partial && config.allow_partial_pattern,
                },
            ),
            None => None,
        },
        mix_lang,
    }
}

/// Whether a matcher for `pattern` can be built: an automaton is needed
/// only where the pattern is ASCII and is matched as itself, and then it
/// has to be one that can be built.
pub open spec fn buildable(
    pattern: Seq<char>,
    plain: Option<PlainMatchConfig>,
    starts_with: bool,
) -> bool {
    ||| plain is None
    ||| !is_ascii_chars(pattern)
    ||| automaton_builds(encode_utf8(pattern), plain->0.case_insensitive, starts_with)
}

/// Whether every character of the pattern that is matched as itself is
/// ASCII when it is folded, or is matched with regard to case and is its
/// own folded form.
fn folds_plainly(
    pattern: &[char],
    lowercase: &[char],
    plain: Option<PlainMatchConfig>,
) -> (r: bool)
    requires
        lowercase@ == mono_lowercase_seq(pattern@),
    ensures
        r == plain_within(pattern@, plain, 1),
{
    proof {
        reveal(plain_within);
    }
    match plain {
        None => true,
        Some(p) => {
            let mut i: usize = 0;
            while i < pattern.len()
                invariant
                    i <= pattern.len(),
                    plain == Some(p),
                    lowercase@ == mono_lowercase_seq(pattern@),
                    forall|pi: int|
                        0 <= pi < i ==> {
                            ||| crate::unicode::utf8::char_len_utf8(
                                #[trigger] mono_lowercase_seq(pattern@)[pi],
                            ) <= 1
                            ||| !p.case_insensitive && pattern@[pi] == mono_lowercase_seq(
                                pattern@,
                            )[pi]
                        },
                decreases pattern.len() - i,
            {
                let folded = lowercase[i];
                if !((folded as u32) < 0x80 || (!p.case_insensitive && pattern[i] == folded)) {
                    proof {
                        reveal(plain_within);
                        let lower = mono_lowercase_seq(pattern@);
                        assert(crate::unicode::utf8::char_len_utf8(lower[i as int]) > 1);
                        assert(p.case_insensitive || pattern@[i as int] != lower[i as int]);
                    }
                    return false;
                }
                i = i + 1;
            }
            proof {
                reveal(plain_within);
            }
            true
        },
    }
}

/// What the analysis of a folded pattern finds: the fewest bytes of a
/// haystack that do, and what it says of pinyin.
fn analyzed<'a>(
    lowercase: &str,
    is_pattern_partial: bool,
    pinyin: Option<PinyinMatchConfig<'a>>,
    romaji: Option<RomajiMatchConfig<'a>>,
    config: PatternAnalyzeConfig,
) -> (r: (usize, PinyinAnalyzeResult))
    requires
        pinyin is Some ==> pinyin->0.wf(),
    ensures
        ({
            let partial = match pinyin {
                Some(p) => is_pattern_partial && p.allow_partial_pattern,
                None => false,
            };
            let found = spec_analyze(
                WalkSetting { pattern: lowercase@, pinyin, partial },
                romaji is Some,
                config.traversal,
            );
            &&& r.0 == found.min_len
            &&& r.1.used_notations == found.used
            &&& r.1.partial_pattern == partial
            &&& r.0 <= utf8_len(lowercase@)
            &&& pinyin is Some ==> pinyin->0.notations.spec_contains(found.used)
        }),
{
    let mut analyzer = PatternAnalyzer::new(lowercase, is_pattern_partial, pinyin, romaji);
    analyzer.analyze(config);
    (analyzer.min_haystack_len(), *analyzer.pinyin())
}

/// The matcher for haystacks that are ASCII throughout: an automaton where
/// the pattern is ASCII and is matched as itself; none where that
/// automaton cannot be built.
fn ascii_part(
    pattern: &str,
    plain: Option<PlainMatchConfig>,
    starts_with: bool,
    ends_with: bool,
) -> (r: Option<AsciiMatcher>)
    ensures
        r is Some == buildable(pattern@, plain, starts_with),
        r is Some ==> r->0.wf() && match r->0 {
            AsciiMatcher::Ac(m) => {
                &&& is_ascii_chars(pattern@)
                &&& m.pattern() == encode_utf8(pattern@)
                &&& plain is Some
                &&& m.case_insensitive() == plain->0.case_insensitive
                &&& m.starts_with() == starts_with
                &&& m.ends_with() == ends_with
            },
            AsciiMatcher::Fail => plain is None || !is_ascii_chars(pattern@),
            AsciiMatcher::Regex(_) => false,
        },
{
    match &plain {
        Some(p) => {
            if pattern.is_ascii() {
                proof {
                    is_ascii_chars_encode_utf8(pattern@);
                    assert(is_ascii_bytes(encode_utf8(pattern@))) by {
                        assert forall|i: int| 0 <= i < encode_utf8(pattern@).len() implies (
                        #[trigger] encode_utf8(pattern@)[i]) < 128 by {
                            let c = pattern@[i];
                            assert('\0' <= c <= '\u{7f}');
                        }
                    }
                }
                AsciiMatcher::new(pattern.as_bytes(), Some(p), starts_with, ends_with)
            } else {
                Some(AsciiMatcher::Fail)
            }
        },
        None => Some(AsciiMatcher::Fail),
    }
}

/// The fewest bytes of a haystack in which a matcher looks for the
/// pattern, of which the analysis found `found` to do. See `min_len_of`.
fn min_len(
    pattern: &[char],
    lowercase: &[char],
    plain: Option<PlainMatchConfig>,
    notations: Option<PinyinNotation>,
    romaji: bool,
    found: usize,
) -> (r: usize)
    requires
        lowercase@ == mono_lowercase_seq(pattern@),
    ensures
        r == (if plain_within(pattern@, plain, 1) || found <= spec_estimate(
            pattern@.len(),
            notations,
            romaji,
        ) {
            found
        } else {
            spec_estimate(pattern@.len(), notations, romaji) as usize
        }),
        r <= found,
{
    if folds_plainly(pattern, lowercase, plain) {
        found
    } else {
        let by_chars = estimate_len(pattern.len(), notations, romaji);
        if found <= by_chars {
            found
        } else {
            by_chars
        }
    }
}

/// What a matcher is made of. See `IbMatcher::builder`.
pub struct IbMatcherBuilder<'p, 'a> {
    pub pattern: &'p str,
    pub lang_only: Option<LangOnly>,
    pub analyze: bool,
    pub analyze_config: Option<PatternAnalyzeConfig>,
    pub plain: Option<PlainMatchConfig>,
    pub pinyin: Option<PinyinMatchConfig<'a>>,
    pub romaji: Option<RomajiMatchConfig<'a>>,
    pub is_pattern_partial: bool,
    pub starts_with: bool,
    pub ends_with: bool,
    pub mix_lang: bool,
}

impl<'p, 'a> IbMatcherBuilder<'p, 'a> {
    /// Whether the pattern is analyzed by a walk through the ways to read
    /// it. Worth it for more than some thousand haystacks. Default:
    /// `false`.
    pub fn analyze(self, analyze: bool) -> (r: Self)
        ensures
            r == (IbMatcherBuilder { analyze, ..self }),
    {
        IbMatcherBuilder { analyze, ..self }
    }

    /// How the pattern is analyzed, in place of what `analyze` says.
    pub fn analyze_config(self, config: PatternAnalyzeConfig) -> (r: Self)
        ensures
            r == (IbMatcherBuilder { analyze_config: Some(config), ..self }),
    {
        IbMatcherBuilder { analyze_config: Some(config), ..self }
    }

    /// How the characters of the pattern are matched as themselves.
    /// Default: without regard to case.
    pub fn plain(self, plain: PlainMatchConfig) -> (r: Self)
        ensures
            r == (IbMatcherBuilder { plain: Some(plain), ..self }),
    {
        IbMatcherBuilder { plain: Some(plain), ..self }
    }

    /// How, or that not, the characters of the pattern are matched as
    /// themselves.
    pub fn maybe_plain(self, plain: Option<PlainMatchConfig>) -> (r: Self)
        ensures
            r == (IbMatcherBuilder { plain, ..self }),
    {
        IbMatcherBuilder { plain, ..self }
    }

    /// Whether the characters of the pattern are matched as themselves
    /// without regard to case, where they are matched as themselves at
    /// all. Default: `true`.
    pub fn case_insensitive(self, case_insensitive: bool) -> (r: Self)
        ensures
            r == (IbMatcherBuilder {
                plain: if self.plain is Some {
                    Some(PlainMatchConfig { case_insensitive })
                } else {
                    None
                },
                ..self
            }),
    {
        let plain = match self.plain {
            Some(_) => Some(PlainMatchConfig { case_insensitive }),
            None => None,
        };
        IbMatcherBuilder { plain, ..self }
    }

    /// With `true`, the characters of the pattern are not matched as
    /// themselves, only as pinyin and romaji. The empty pattern still
    /// matches everything.
    pub fn no_plain(self, no_plain: bool) -> (r: Self)
        ensures
            r == (IbMatcherBuilder {
                plain: if no_plain {
                    None
                } else if self.plain is Some {
                    self.plain
                } else {
                    Some(PlainMatchConfig { case_insensitive: true })
                },
                ..self
            }),
    {
        let plain = if no_plain {
            None
        } else {
            match self.plain {
                Some(p) => Some(p),
                None => Some(PlainMatchConfig { case_insensitive: true }),
            }
        };
        IbMatcherBuilder { plain, ..self }
    }

    /// Matches the pattern as pinyin too.
    pub fn pinyin(self, pinyin: PinyinMatchConfig<'a>) -> (r: Self)
        ensures
            r == (IbMatcherBuilder { pinyin: Some(pinyin), ..self }),
    {
        IbMatcherBuilder { pinyin: Some(pinyin), ..self }
    }

    pub fn maybe_pinyin(self, pinyin: Option<PinyinMatchConfig<'a>>) -> (r: Self)
        ensures
            r == (IbMatcherBuilder { pinyin, ..self }),
    {
        IbMatcherBuilder { pinyin, ..self }
    }

    /// Matches the pattern as romaji too.
    pub fn romaji(self, romaji: RomajiMatchConfig<'a>) -> (r: Self)
        ensures
            r == (IbMatcherBuilder { romaji: Some(romaji), ..self }),
    {
        IbMatcherBuilder { romaji: Some(romaji), ..self }
    }

    pub fn maybe_romaji(self, romaji: Option<RomajiMatchConfig<'a>>) -> (r: Self)
        ensures
            r == (IbMatcherBuilder { romaji, ..self }),
    {
        IbMatcherBuilder { romaji, ..self }
    }

    /// With `true`, the end of the pattern may match the start of a pinyin
    /// or a romaji: "pinyi" then matches a haystack that reads "pinyin".
    /// Default: `false`.
    pub fn is_pattern_partial(self, is_pattern_partial: bool) -> (r: Self)
        ensures
            r == (IbMatcherBuilder { is_pattern_partial, ..self }),
    {
        IbMatcherBuilder { is_pattern_partial, ..self }
    }

    /// Only matches that start at the start of the haystack. Default:
    /// `false`.
    pub fn starts_with(self, starts_with: bool) -> (r: Self)
        ensures
            r == (IbMatcherBuilder { starts_with, ..self }),
    {
        IbMatcherBuilder { starts_with, ..self }
    }

    /// Only matches that end at the end of the haystack. Default: `false`.
    pub fn ends_with(self, ends_with: bool) -> (r: Self)
        ensures
            r == (IbMatcherBuilder { ends_with, ..self }),
    {
        IbMatcherBuilder { ends_with, ..self }
    }

    /// Whether one match may read some characters as pinyin and others as
    /// romaji. Default: `false`, as letters that many readings share make
    /// for matches that are not meant.
    pub fn mix_lang(self, mix_lang: bool) -> (r: Self)
        ensures
            r == (IbMatcherBuilder { mix_lang, ..self }),
    {
        IbMatcherBuilder { mix_lang, ..self }
    }

    /// How the pattern is matched as itself, after `lang_only`.
    pub open spec fn spec_plain(&self) -> Option<PlainMatchConfig> {
        match self.lang_only {
            Some(LangOnly::Pinyin) => None,
            Some(LangOnly::Romaji) => None,
            _ => self.plain,
        }
    }

    /// How the pattern is matched as pinyin, after `lang_only`.
    pub open spec fn spec_pinyin(&self) -> Option<PinyinMatchConfig<'a>> {
        match self.lang_only {
            Some(LangOnly::English) => None,
            Some(LangOnly::Romaji) => None,
            _ => self.pinyin,
        }
    }

    /// How the pattern is matched as romaji, after `lang_only`.
    pub open spec fn spec_romaji(&self) -> Option<RomajiMatchConfig<'a>> {
        match self.lang_only {
            Some(LangOnly::English) => None,
            Some(LangOnly::Pinyin) => None,
            _ => self.romaji,
        }
    }

    /// Whether the analysis walks through the ways to read the pattern.
    pub open spec fn spec_traversal(&self) -> bool {
        match self.analyze_config {
            Some(config) => config.traversal,
            None => self.analyze,
        }
    }

    /// The configurations that `lang_only` leaves on are well formed.
    pub open spec fn wf(&self) -> bool {
        &&& self.spec_pinyin() is Some ==> self.spec_pinyin()->0.wf()
        &&& self.spec_romaji() is Some ==> self.spec_romaji()->0.wf()
    }

    /// Whether the matcher can be built. See `buildable`.
    pub open spec fn spec_buildable(&self) -> bool {
        buildable(self.pattern@, self.spec_plain(), self.starts_with)
    }

    /// What the analysis of the pattern finds. See `analysis_of`.
    pub open spec fn spec_analysis(&self) -> crate::matcher::analyze::WalkState {
        analysis_of(
            self.pattern@,
            self.spec_pinyin(),
            self.spec_romaji() is Some,
            self.is_pattern_partial,
            self.spec_traversal(),
        )
    }

    /// What the matcher matches by, with those languages switched off that
    /// `lang_only` rules out. See `rules_of`.
    pub open spec fn spec_rules(&self) -> Rules<'a> {
        rules_of(
            self.pattern@,
            self.spec_plain(),
            self.spec_pinyin(),
            self.spec_romaji(),
            self.is_pattern_partial,
            self.starts_with,
            self.ends_with,
            self.mix_lang,
            self.spec_traversal(),
        )
    }

    /// Whether `m` is the matcher that `build` yields: a well-formed
    /// matcher that matches by `spec_rules`, which tries no notation of
    /// pinyin that is not asked for.
    pub open spec fn builds(&self, m: IbMatcher<'a>) -> bool {
        &&& m.wf()
        &&& m.rules() == self.spec_rules()
        &&& self.spec_pinyin() is Some ==> self.spec_pinyin()->0.notations.spec_contains(
            self.spec_analysis().used,
        )
    }

    /// The matcher. `None` where the automaton for ASCII haystacks could
    /// not be built, which is needed only where the pattern is ASCII and
    /// is matched as itself.
    ///
    /// The notations of pinyin are tried in this order: the prefix group
    /// of the used notations, then the others. Without a walk, every
    /// notation that is asked for counts as used.
    pub fn build(self) -> (r: Option<IbMatcher<'a>>)
        requires
            self.wf(),
        ensures
            r is Some == self.spec_buildable(),
            r is Some ==> self.builds(r->0),
    {
        let plain = match self.lang_only {
            Some(LangOnly::Pinyin) => None,
            Some(LangOnly::Romaji) => None,
            _ => self.plain,
        };
        let pinyin = match self.lang_only {
            Some(LangOnly::English) => None,
            Some(LangOnly::Romaji) => None,
            _ => self.pinyin,
        };
        let romaji = match self.lang_only {
            Some(LangOnly::English) => None,
            Some(LangOnly::Pinyin) => None,
            _ => self.romaji,
        };
        let config = match self.analyze_config {
            Some(config) => config,
            None => if self.analyze {
                PatternAnalyzeConfig::standard()
            } else {
                PatternAnalyzeConfig::new()
            },
        };
        assembled(
            self.pattern,
            plain,
            pinyin,
            romaji,
            self.is_pattern_partial,
            self.starts_with,
            self.ends_with,
            self.mix_lang,
            config,
        )
    }
}

/// The matcher for `pattern` of the languages that are switched on; none
/// where the automaton for ASCII haystacks cannot be built.
fn assembled<'a>(
    pattern: &str,
    plain: Option<PlainMatchConfig>,
    pinyin: Option<PinyinMatchConfig<'a>>,
    romaji: Option<RomajiMatchConfig<'a>>,
    is_pattern_partial: bool,
    starts_with: bool,
    ends_with: bool,
    mix_lang: bool,
    config: PatternAnalyzeConfig,
) -> (r: Option<IbMatcher<'a>>)
    requires
        pinyin is Some ==> pinyin->0.wf(),
        romaji is Some ==> romaji->0.wf(),
    ensures
        r is Some == buildable(pattern@, plain, starts_with),
        r is Some ==> r->0.wf() && r->0.rules() == rules_of(
            pattern@,
            plain,
            pinyin,
            romaji,
            is_pattern_partial,
            starts_with,
            ends_with,
            mix_lang,
            config.traversal,
        ),
        pinyin is Some ==> pinyin->0.notations.spec_contains(
            analysis_of(
                pattern@,
                pinyin,
                romaji is Some,
                is_pattern_partial,
                config.traversal,
            ).used,
        ),
{
    let chars = chars_of(pattern);
    let lowercase: String = pattern.to_mono_lowercase();
    let folded = chars_of(lowercase.as_str());
    let (found, pinyin_analyze) = analyzed(
        lowercase.as_str(),
        is_pattern_partial,
        pinyin,
        romaji,
        config,
    );
    let min_haystack_len = min_len(
        chars.as_slice(),
        folded.as_slice(),
        plain,
        match &pinyin {
            Some(p) => Some(p.notations),
            None => None,
        },
        romaji.is_some(),
        found,
    );
    let pinyin_matcher = match pinyin {
        Some(config) => Some(PinyinMatcher::new(config, pinyin_analyze)),
        None => None,
    };
    let romaji_matcher = match romaji {
        Some(config) => Some(
            RomajiMatcher {
                partial_pattern: is_pattern_partial && config.allow_partial_pattern,
                config,
            },
        ),
        None => None,
    };
    match ascii_part(pattern, plain, starts_with, ends_with) {
        None => None,
        Some(ascii) => {
            Some(
                IbMatcher::assemble(
                    ascii,
                    chars,
                    folded,
                    min_haystack_len,
                    starts_with,
                    ends_with,
                    plain,
                    pinyin_matcher,
                    romaji_matcher,
                    mix_lang,
                ),
            )
        },
    }
}

impl<'a> IbMatcher<'a> {
    /// What a matcher for `pattern` is made of, with the defaults: the
    /// pattern is matched as itself without regard to case, not as pinyin
    /// nor as romaji, anywhere in the haystack.
    pub fn builder<'p>(pattern: &'p str) -> (r: IbMatcherBuilder<'p, 'a>)
        ensures
            r == (IbMatcherBuilder {
                pattern,
                lang_only: None,
                analyze: false,
                analyze_config: None,
                plain: Some(PlainMatchConfig { case_insensitive: true }),
                pinyin: None,
                romaji: None,
                is_pattern_partial: false,
                starts_with: false,
                ends_with: false,
                mix_lang: false,
            }),
    {
        IbMatcherBuilder {
            pattern,
            lang_only: None,
            analyze: false,
            analyze_config: None,
            plain: Some(PlainMatchConfig { case_insensitive: true }),
            pinyin: None,
            romaji: None,
            is_pattern_partial: false,
            starts_with: false,
            ends_with: false,
            mix_lang: false,
        }
    }

    /// `builder` for a pattern that may be meant for one language only.
    pub fn builder_for<'p>(pattern: Pattern<'p>) -> (r: IbMatcherBuilder<'p, 'a>)
        ensures
            r == (IbMatcherBuilder {
                pattern: pattern.pattern,
                lang_only: pattern.lang_only,
                analyze: false,
                analyze_config: None,
                plain: Some(PlainMatchConfig { case_insensitive: true }),
                pinyin: None,
                romaji: None,
                is_pattern_partial: false,
                starts_with: false,
                ends_with: false,
                mix_lang: false,
            }),
    {
        IbMatcherBuilder {
            pattern: pattern.pattern,
            lang_only: pattern.lang_only,
            analyze: false,
            analyze_config: None,
            plain: Some(PlainMatchConfig { case_insensitive: true }),
            pinyin: None,
            romaji: None,
            is_pattern_partial: false,
            starts_with: false,
            ends_with: false,
            mix_lang: false,
        }
    }
}

impl<'a> IbMatcher<'a> {
    /// The matcher that is made of `builder`. See `IbMatcherBuilder::build`.
    pub fn new<'p>(builder: IbMatcherBuilder<'p, 'a>) -> (r: Option<IbMatcher<'a>>)
        requires
            builder.wf(),
        ensures
            r is Some == builder.spec_buildable(),
            r is Some ==> builder.builds(r->0),
    {
        builder.build()
    }
}

} // verus!
