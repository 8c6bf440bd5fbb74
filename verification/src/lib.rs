//! A multilingual substring matcher for Chinese pinyin and Japanese romaji.
//!
//! A short pattern such as `pysousuoeve` or `konosuba` is located inside
//! haystacks that may hold Hanzi or kana, where the pattern spells a
//! romanization of those characters.
//!
//! - `pinyin`: the ten notations of pinyin, and a dictionary that gives
//!   each character its pinyins in every notation that is asked for.
//! - `romaji`: Hepburn romanization of kana, of kanji and of the words of
//!   a dictionary.
//! - `matcher`: the matcher itself, `IbMatcher`, with the analysis of a
//!   pattern and the matcher for haystacks that are ASCII throughout.
//! - `syntax`: patterns that name the one language in which they are to
//!   be matched.
//! - `minimal`, `bindings`: matching in one call.
//! - `unicode`: lengths in UTF-8, folding to lower case, character
//!   boundaries.
//!
//! The dictionaries are made of tables that the caller hands in; they are
//! checked when a dictionary is made. What a search yields is stated by
//! the specification functions of the matcher, `spec_find`, `spec_test`
//! and `spec_is_match`, and what holds of every match in `matcher::laws`.
pub mod bindings;
pub mod matcher;
pub mod minimal;
pub mod pinyin;
pub mod romaji;
pub mod syntax;
pub mod unicode;
