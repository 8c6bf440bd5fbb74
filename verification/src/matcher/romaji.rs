//! How a pattern is matched as romaji.
use vstd::prelude::*;
use crate::romaji::HepburnRomanizer;

verus! {

/// How a pattern is matched as romaji.
///
/// One romanizer can be shared by all configurations: making it is what
/// takes time.
#[derive(Clone, Copy)]
pub struct RomajiMatchConfig<'a> {
    pub romanizer: &'a HepburnRomanizer<'a>,
    /// Whether upper case letters can match Japanese words.
    pub case_insensitive: bool,
    pub allow_partial_pattern: bool,
}

/// Sets the options of a `RomajiMatchConfig`.
pub struct RomajiMatchConfigBuilder<'a> {
    pub config: RomajiMatchConfig<'a>,
}

impl<'a> RomajiMatchConfigBuilder<'a> {
    /// Whether upper case letters can match Japanese words. Default:
    /// `false`.
    pub fn case_insensitive(self, case_insensitive: bool) -> (r: Self)
        ensures
            r.config == (RomajiMatchConfig { case_insensitive, ..self.config }),
    {
        RomajiMatchConfigBuilder { config: RomajiMatchConfig { case_insensitive, ..self.config } }
    }

    /// Default: `true`.
    pub fn allow_partial_pattern(self, allow_partial_pattern: bool) -> (r: Self)
        ensures
            r.config == (RomajiMatchConfig { allow_partial_pattern, ..self.config }),
    {
        RomajiMatchConfigBuilder {
            config: RomajiMatchConfig { allow_partial_pattern, ..self.config },
        }
    }

    pub fn build(self) -> (r: RomajiMatchConfig<'a>)
        ensures
            r == self.config,
    {
        self.config
    }
}

impl<'a> RomajiMatchConfig<'a> {
    /// The romanizer is well formed.
    pub open spec fn wf(&self) -> bool {
        self.romanizer.wf()
    }

    /// The configuration with the default options: upper case letters do
    /// not match, and a partial pattern is allowed.
    pub fn builder(romanizer: &'a HepburnRomanizer<'a>) -> (r: RomajiMatchConfigBuilder<'a>)
        ensures
            r.config == (RomajiMatchConfig {
                romanizer,
                case_insensitive: false,
                allow_partial_pattern: true,
            }),
    {
        RomajiMatchConfigBuilder {
            config: RomajiMatchConfig {
                romanizer,
                case_insensitive: false,
                allow_partial_pattern: true,
            },
        }
    }

    /// The same configuration on the same romanizer.
    pub fn shallow_clone(&self) -> (r: RomajiMatchConfig<'a>)
        ensures
            r == *self,
    {
        RomajiMatchConfig {
            romanizer: self.romanizer,
            case_insensitive: self.case_insensitive,
            allow_partial_pattern: self.allow_partial_pattern,
        }
    }
}

/// A romaji configuration, and whether a partial pattern is accepted.
pub struct RomajiMatcher<'a> {
    pub config: RomajiMatchConfig<'a>,
    pub partial_pattern: bool,
}

} // verus!
