//! A pattern, and the one language in which it is to be matched.
use vstd::prelude::*;

verus! {

/// The one language in which a pattern is to be matched.
#[derive(Clone, Copy, Debug, PartialEq, Eq, Structural)]
pub enum LangOnly {
    English,
    Pinyin,
    Romaji,
}

/// A pattern, and the one language in which it is to be matched, if it is
/// to be matched in one only.
#[derive(Clone, Copy, Debug)]
pub struct Pattern<'a> {
    pub pattern: &'a str,
    pub lang_only: Option<LangOnly>,
}

impl<'a> Pattern<'a> {
    /// The pattern that is matched in every language.
    pub fn new(pattern: &'a str) -> (r: Pattern<'a>)
        ensures
            r.pattern == pattern,
            r.lang_only is None,
    {
        Pattern { pattern, lang_only: None }
    }
}

} // verus!
