//! Bytes as a regular expression.
use vstd::prelude::*;
use crate::unicode::utf8::string_push;

verus! {

/// The upper-case hexadecimal digit of a number below 16.
pub open spec fn spec_hex_digit(n: u8) -> char {
    if n < 10 {
        (48 + n) as char
    } else {
        (55 + n) as char
    }
}

/// Each byte as `\x` and its two hexadecimal digits.
pub open spec fn spec_escape_bytes(bytes: Seq<u8>) -> Seq<char>
    decreases bytes.len(),
{
    if bytes.len() == 0 {
        Seq::empty()
    } else {
        spec_escape_bytes(bytes.drop_last()) + seq![
            '\\',
            'x',
            spec_hex_digit(bytes.last() / 16),
            spec_hex_digit(bytes.last() % 16),
        ]
    }
}

fn hex_digit(n: u8) -> (r: char)
    requires
        n < 16,
    ensures
        r == spec_hex_digit(n),
{
    if n < 10 {
        (48 + n) as char
    } else {
        (55 + n) as char
    }
}

/// The regular expression that matches exactly `bytes`: each byte as `\x`
/// and its two upper-case hexadecimal digits.
pub fn escape_bytes(bytes: &[u8]) -> (r: String)
    ensures
        r@ == spec_escape_bytes(bytes@),
{
    let mut pattern = String::new();
    let mut i: usize = 0;
    proof {
        assert(bytes@.take(0) == Seq::<u8>::empty());
    }
    while i < bytes.len()
        invariant
            i <= bytes.len(),
            pattern@ == spec_escape_bytes(bytes@.take(i as int)),
        decreases bytes.len() - i,
    {
        let b = bytes[i];
        let ghost before = pattern@;
        string_push(&mut pattern, '\\');
        string_push(&mut pattern, 'x');
        string_push(&mut pattern, hex_digit(b / 16));
        string_push(&mut pattern, hex_digit(b % 16));
        proof {
            let next = bytes@.take(i as int + 1);
            assert(next.drop_last() == bytes@.take(i as int));
            assert(next.last() == b);
            assert(pattern@ == before + seq![
                '\\',
                'x',
                spec_hex_digit(b / 16),
                spec_hex_digit(b % 16),
            ]);
        }
        i = i + 1;
    }
    proof {
        assert(bytes@.take(i as int) == bytes@);
    }
    pattern
}

/// `regex::bytes::Regex`: a regular expression that is matched on bytes.
#[verifier::external_type_specification]
#[verifier::external_body]
pub struct ExRegex(regex::bytes::Regex);

/// `regex::Error`: why a regular expression could not be built.
#[verifier::external_type_specification]
#[verifier::external_body]
pub struct ExRegexError(regex::Error);

/// The text that a regular expression was built from.
pub uninterp spec fn regex_source(regex: regex::bytes::Regex) -> Seq<char>;

/// Whether a regular expression was built to ignore case.
pub uninterp spec fn regex_case_insensitive(regex: regex::bytes::Regex) -> bool;

/// Whether the regular expression with the text `source` can be built: the
/// text is a regular expression, and not too large a one.
pub uninterp spec fn regex_builds(source: Seq<char>, case_insensitive: bool) -> bool;

/// The leftmost match in `haystack` of the regular expression with the
/// text `source`, matched on bytes and not on Unicode characters.
pub uninterp spec fn regex_leftmost(
    source: Seq<char>,
    case_insensitive: bool,
    haystack: Seq<u8>,
) -> Option<(usize, usize)>;

/// Whether a match, if there is one, lies in a haystack of `len` bytes,
/// its start not after its end.
pub open spec fn lies_in(found: Option<(usize, usize)>, len: nat) -> bool {
    match found {
        Some((start, end)) => start <= end <= len,
        None => true,
    }
}

/// `regex::bytes::RegexBuilder::build` for the text `source`, with
/// `unicode` switched off and `case_insensitive` as given. Fails where the
/// text is no regular expression, or too large a one.
#[verifier::external_body]
fn build_bytes_regex(
    source: &str,
    case_insensitive: bool,
) -> (r: Result<regex::bytes::Regex, regex::Error,>)
    ensures
        r is Ok == regex_builds(source@, case_insensitive),
        r is Ok ==> regex_source(r->Ok_0) == source@,
        r is Ok ==> regex_case_insensitive(r->Ok_0) == case_insensitive,
{
    regex::bytes::RegexBuilder::new(source)
        .unicode(false)
        .case_insensitive(case_insensitive)
        .build()
}

/// `regex::bytes::Regex::find`: where the leftmost match in `haystack`
/// starts and ends; the offsets of a match lie in the haystack, the start
/// not after the end.
#[verifier::external_body]
fn regex_find(regex: &regex::bytes::Regex, haystack: &[u8]) -> (r: Option<(usize, usize)>)
    ensures
        r == regex_leftmost(regex_source(*regex), regex_case_insensitive(*regex), haystack@),
        lies_in(r, haystack@.len()),
{
    regex.find(haystack).map(|m| (m.start(), m.end()))
}

/// A regular expression that matches one byte string.
pub struct RegexMatcher {
    regex: regex::bytes::Regex,
}

impl RegexMatcher {
    /// The text of the regular expression.
    pub closed spec fn source(&self) -> Seq<char> {
        regex_source(self.regex)
    }

    /// Whether the regular expression ignores case.
    pub closed spec fn case_insensitive(&self) -> bool {
        regex_case_insensitive(self.regex)
    }

    /// The matcher that is made of a regular expression, or of the
    /// failure to build one.
    pub fn assemble(built: Result<regex::bytes::Regex, regex::Error>) -> (r: Option<RegexMatcher>)
        ensures
            r is Some == built is Ok,
            built is Ok ==> r->0.source() == regex_source(built->Ok_0) && r->0.case_insensitive()
                == regex_case_insensitive(built->Ok_0),
    {
        match built {
            Ok(regex) => Some(RegexMatcher { regex }),
            Err(_) => None,
        }
    }

    /// The matcher for the bytes `pattern`: the regular expression whose
    /// text is `escape_bytes(pattern)`. `None` where it cannot be built.
    pub fn new(pattern: &[u8], case_insensitive: bool) -> (r: Option<RegexMatcher>)
        ensures
            r is Some == regex_builds(spec_escape_bytes(pattern@), case_insensitive),
            r is Some ==> r->0.source() == spec_escape_bytes(pattern@) && r->0.case_insensitive()
                == case_insensitive,
    {
        let source = escape_bytes(pattern);
        Self::assemble(build_bytes_regex(source.as_str(), case_insensitive))
    }

    /// What `find` yields.
    pub open spec fn spec_find(&self, haystack: Seq<u8>) -> Option<(usize, usize)> {
        regex_leftmost(self.source(), self.case_insensitive(), haystack)
    }

    /// The leftmost match in `haystack`.
    pub fn find(&self, haystack: &[u8]) -> (r: Option<(usize, usize)>)
        ensures
            r == self.spec_find(haystack@),
            lies_in(r, haystack@.len()),
    {
        regex_find(&self.regex, haystack)
    }
}

} // verus!
