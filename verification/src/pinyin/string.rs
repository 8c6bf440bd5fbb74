//! The bounded string that holds one pinyin in one notation.
use vstd::prelude::*;
use crate::unicode::utf8::{char_len_utf8, lemma_utf8_len_monotonic, lemma_utf8_len_push, utf8_len};

verus! {

/// The most bytes that a pinyin takes in any notation.
pub const PINYIN_MAX_LEN: usize = 7;

/// A string of at most seven bytes, held inline: an
/// `arraystring::ArrayString` of capacity seven.
#[verifier::external_body]
pub struct PinyinString {
    inner: arraystring::ArrayString<arraystring::typenum::U7>,
}

/// The characters that a `PinyinString` holds.
pub uninterp spec fn pinyin_string_chars(s: PinyinString) -> Seq<char>;

impl View for PinyinString {
    type V = Seq<char>;

    open spec fn view(&self) -> Seq<char> {
        pinyin_string_chars(*self)
    }
}

impl PinyinString {
    /// `ArrayString::new`: the empty string.
    #[verifier::external_body]
    pub(crate) fn new() -> (s: PinyinString)
        ensures
            pinyin_string_chars(s) == Seq::<char>::empty(),
    {
        PinyinString { inner: arraystring::ArrayString::new() }
    }

    /// `ArrayString::try_push`: appends `c` where the string then still
    /// takes no more than its capacity of seven bytes, and says whether it
    /// did; otherwise the string is left as it was.
    #[verifier::external_body]
    pub(crate) fn try_push(&mut self, c: char) -> (pushed: bool)
        ensures
            pushed == (utf8_len(pinyin_string_chars(*old(self))) + char_len_utf8(c) <= 7),
            pushed ==> pinyin_string_chars(*final(self)) == pinyin_string_chars(*old(self)).push(c),
            !pushed ==> pinyin_string_chars(*final(self)) == pinyin_string_chars(*old(self)),
    {
        self.inner.try_push(c).is_ok()
    }

    /// `ArrayString::as_str`: the whole string as a slice. An
    /// `ArrayString` never outgrows its capacity, here seven bytes.
    #[verifier::external_body]
    fn whole(&self) -> (r: &str)
        ensures
            r@ == pinyin_string_chars(*self),
            utf8_len(r@) <= 7,
    {
        self.inner.as_str()
    }

    /// The string as a slice, of no more than seven bytes.
    pub fn as_str(&self) -> (r: &str)
        ensures
            r@ == self@,
            utf8_len(r@) <= 7,
    {
        self.whole()
    }

    /// The string that holds the characters of `s`, where they fit.
    pub fn from_chars(s: &[char]) -> (r: Option<PinyinString>)
        ensures
            r is Some == (utf8_len(s@) <= 7),
            r is Some ==> r->0@ == s@,
    {
        let mut out = PinyinString::new();
        let mut i: usize = 0;
        while i < s.len()
            invariant
                i <= s.len(),
                out@ == s@.subrange(0, i as int),
                utf8_len(s@.subrange(0, i as int)) <= 7,
            decreases s.len() - i,
        {
            proof {
                assert(s@.subrange(0, i as int + 1) == s@.subrange(0, i as int).push(s@[i as int]));
                lemma_utf8_len_push(s@.subrange(0, i as int), s@[i as int]);
                lemma_utf8_len_monotonic(s@, i as int + 1, s@.len() as int);
                assert(s@.subrange(0, s@.len() as int) == s@);
            }
            if !out.try_push(s[i]) {
                return None;
            }
            i = i + 1;
        }
        proof {
            assert(s@.subrange(0, i as int) == s@);
        }
        Some(out)
    }
}

} // verus!
