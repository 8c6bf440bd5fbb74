//! Pinyin: the notations, and the readings of each character.
pub mod data;
pub mod encode;
pub mod matcher;
pub mod notation;
pub mod string;
pub mod table;

pub use notation::PinyinNotation;
