//! Unicode helpers: lengths in UTF-8, single-valued case folding and
//! character boundaries.
pub mod case;
pub mod str;
pub mod utf8;
