//! Patterns with a postmodifier that names the one language in which the
//! pattern is to be matched.
use vstd::prelude::*;
use crate::matcher::pattern::{LangOnly, Pattern};
use crate::unicode::utf8::chars_of;

verus! {

/// Whether `s` ends with `;` and the two letters `a` and `b`.
pub open spec fn has_postmodifier(s: Seq<char>, a: char, b: char) -> bool {
    s.len() >= 3 && s[s.len() - 3] == ';' && s[s.len() - 2] == a && s[s.len() - 1] == b
}

/// The postmodifier of a pattern, of those that are switched on: `;en`
/// before `;py` before `;rm`.
pub open spec fn spec_lang_only(s: Seq<char>, en: bool, py: bool, rm: bool) -> Option<LangOnly> {
    if en && has_postmodifier(s, 'e', 'n') {
        Some(LangOnly::English)
    } else if py && has_postmodifier(s, 'p', 'y') {
        Some(LangOnly::Pinyin)
    } else if rm && has_postmodifier(s, 'r', 'm') {
        Some(LangOnly::Romaji)
    } else {
        None
    }
}

/// Which postmodifiers are looked for. See `Pattern::parse_ev`.
pub struct ParseEv<'a> {
    pub pattern: &'a str,
    pub postmodifier_en: bool,
    pub postmodifier_py: bool,
    pub postmodifier_rm: bool,
}

fn ends_with_postmodifier(chars: &[char], a: char, b: char) -> (r: bool)
    ensures
        r == has_postmodifier(chars@, a, b),
{
    let n = chars.len();
    n >= 3 && chars[n - 3] == ';' && chars[n - 2] == a && chars[n - 1] == b
}

impl<'a> ParseEv<'a> {
    /// Whether `;en` is looked for: the pattern is matched as itself only.
    /// Default: `true`.
    pub fn postmodifier_en(self, postmodifier_en: bool) -> (r: Self)
        ensures
            r == (ParseEv { postmodifier_en, ..self }),
    {
        ParseEv { postmodifier_en, ..self }
    }

    /// Whether `;py` is looked for: the pattern is matched as pinyin only.
    /// Default: `true`.
    pub fn postmodifier_py(self, postmodifier_py: bool) -> (r: Self)
        ensures
            r == (ParseEv { postmodifier_py, ..self }),
    {
        ParseEv { postmodifier_py, ..self }
    }

    /// Whether `;rm` is looked for: the pattern is matched as romaji only.
    /// Default: `true`.
    pub fn postmodifier_rm(self, postmodifier_rm: bool) -> (r: Self)
        ensures
            r == (ParseEv { postmodifier_rm, ..self }),
    {
        ParseEv { postmodifier_rm, ..self }
    }

    /// The pattern without its postmodifier, and the language that the
    /// postmodifier names. Of several postmodifiers only the last is one.
    pub fn call(self) -> (r: Pattern<'a>)
        ensures
            r.lang_only == spec_lang_only(
                self.pattern@,
                self.postmodifier_en,
                self.postmodifier_py,
                self.postmodifier_rm,
            ),
            r.lang_only is None ==> r.pattern@ == self.pattern@,
            r.lang_only is Some ==> r.pattern@ == self.pattern@.take(self.pattern@.len() - 3),
    {
        let chars = chars_of(self.pattern);
        let n = chars.len();
        let chars = chars.as_slice();
        let lang_only = if self.postmodifier_en && ends_with_postmodifier(chars, 'e', 'n') {
            Some(LangOnly::English)
        } else if self.postmodifier_py && ends_with_postmodifier(chars, 'p', 'y') {
            Some(LangOnly::Pinyin)
        } else if self.postmodifier_rm && ends_with_postmodifier(chars, 'r', 'm') {
            Some(LangOnly::Romaji)
        } else {
            None
        };
        match lang_only {
            Some(lang) => {
                let pattern = self.pattern.substring_char(0, n - 3);
                proof {
                    assert(self.pattern@.subrange(0, n - 3) == self.pattern@.take(n - 3));
                }
                Pattern { pattern, lang_only: Some(lang) }
            },
            None => Pattern { pattern: self.pattern, lang_only: None },
        }
    }
}

impl<'a> Pattern<'a> {
    /// Reads a pattern that may end with one of the postmodifiers `;en`,
    /// `;py` and `;rm`.
    pub fn parse_ev(pattern: &'a str) -> (r: ParseEv<'a>)
        ensures
            r == (ParseEv {
                pattern,
                postmodifier_en: true,
                postmodifier_py: true,
                postmodifier_rm: true,
            }),
    {
        ParseEv { pattern, postmodifier_en: true, postmodifier_py: true, postmodifier_rm: true }
    }
}

} // verus!
