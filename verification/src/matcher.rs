//! The matcher and its parts.
pub mod analyze;
pub mod ascii;
pub mod bound;
pub mod builder;
pub mod encoding;
pub mod engine;
pub mod input;
pub mod laws;
pub mod matches;
pub mod pattern;
pub mod pinyin;
pub mod regex_utils;
pub mod romaji;
pub mod suffix;
pub mod walked;

pub use matches::{Match, OptionMatchExt, SubMatch};
pub use ascii::{AcMatcher, AsciiMatcher, PlainMatchConfig};
pub use pinyin::{PinyinAnalyzeResult, PinyinMatchConfig, PinyinMatcher};
pub use romaji::{RomajiMatchConfig, RomajiMatcher};
pub use engine::IbMatcher;
pub use input::Input;
pub use builder::IbMatcherBuilder;
