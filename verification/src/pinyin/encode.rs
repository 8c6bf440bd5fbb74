//! From the Unicode notation to the other notations.
use vstd::prelude::*;
use crate::pinyin::notation::{
    DILETTER_ABC, DILETTER_JIAJIA, DILETTER_MICROSOFT, DILETTER_THUNISOFT, DILETTER_XIAOHE,
    DILETTER_ZRM, PinyinNotation,
};
use crate::pinyin::string::PinyinString;
use crate::unicode::utf8::{
    chars_of, copy_range, find_char, index_of, lemma_index_of_bounds, range_eq, utf8_len,
};

verus! {

/// The characters of an optional vector.
pub open spec fn view_of_chars(value: Option<Vec<char>>) -> Option<Seq<char>> {
    match value {
        Some(v) => Some(v@),
        None => None,
    }
}

/// The characters of an optional string.
pub open spec fn view_of_string(value: Option<PinyinString>) -> Option<Seq<char>> {
    match value {
        Some(s) => Some(s@),
        None => None,
    }
}

/// U+0300, the combining grave accent.
pub const COMBINING_GRAVE: char = '\u{300}';

/// U+0304, the combining macron.
pub const COMBINING_MACRON: char = '\u{304}';

/// U+030C, the combining caron.
pub const COMBINING_CARON: char = '\u{30C}';

/// U+00EA, e with circumflex.
pub const E_CIRCUMFLEX: char = '\u{EA}';

/// The letter under a tone mark: a, e, i, o, u, v (for u with diaeresis),
/// n or m.
pub open spec fn spec_strip_tone(c: char) -> Option<char> {
    if c == '\u{101}' || c == '\u{E1}' || c == '\u{1CE}' || c == '\u{E0}' {
        Some('a')
    } else if c == '\u{113}' || c == '\u{E9}' || c == '\u{11B}' || c == '\u{E8}' || c == '\u{1EBF}'
        || c == '\u{1EC1}' {
        Some('e')
    } else if c == '\u{12B}' || c == '\u{ED}' || c == '\u{1D0}' || c == '\u{EC}' {
        Some('i')
    } else if c == '\u{14D}' || c == '\u{F3}' || c == '\u{1D2}' || c == '\u{F2}' {
        Some('o')
    } else if c == '\u{16B}' || c == '\u{FA}' || c == '\u{1D4}' || c == '\u{F9}' {
        Some('u')
    } else if c == '\u{FC}' || c == '\u{1D8}' || c == '\u{1DA}' || c == '\u{1DC}' {
        Some('v')
    } else if c == '\u{144}' || c == '\u{148}' || c == '\u{1F9}' {
        Some('n')
    } else if c == '\u{1E3F}' {
        Some('m')
    } else {
        None
    }
}

/// The letter under a tone mark.
pub fn strip_tone(c: char) -> (r: Option<char>)
    ensures
        r == spec_strip_tone(c),
{
    if c == '\u{101}' || c == '\u{E1}' || c == '\u{1CE}' || c == '\u{E0}' {
        Some('a')
    } else if c == '\u{113}' || c == '\u{E9}' || c == '\u{11B}' || c == '\u{E8}' || c == '\u{1EBF}'
        || c == '\u{1EC1}' {
        Some('e')
    } else if c == '\u{12B}' || c == '\u{ED}' || c == '\u{1D0}' || c == '\u{EC}' {
        Some('i')
    } else if c == '\u{14D}' || c == '\u{F3}' || c == '\u{1D2}' || c == '\u{F2}' {
        Some('o')
    } else if c == '\u{16B}' || c == '\u{FA}' || c == '\u{1D4}' || c == '\u{F9}' {
        Some('u')
    } else if c == '\u{FC}' || c == '\u{1D8}' || c == '\u{1DA}' || c == '\u{1DC}' {
        Some('v')
    } else if c == '\u{144}' || c == '\u{148}' || c == '\u{1F9}' {
        Some('n')
    } else if c == '\u{1E3F}' {
        Some('m')
    } else {
        None
    }
}

/// `head` followed by `tail`, where there is a tail.
pub open spec fn prepend(head: Seq<char>, tail: Option<Seq<char>>) -> Option<Seq<char>> {
    match tail {
        Some(t) => Some(head + t),
        None => None,
    }
}

/// The full pinyin without tones of a pinyin in the Unicode notation:
/// - a letter `a..z` stands for itself, and a combining grave accent after
///   it is dropped;
/// - a letter with a tone mark stands for the letter under the mark, `v`
///   for u with diaeresis;
/// - e with circumflex is followed by a combining macron or caron, and
///   the two stand for `e`.
/// `None` where a character is none of these.
pub open spec fn spec_unicode_to_ascii(unicode: Seq<char>) -> Option<Seq<char>>
    decreases unicode.len(),
{
    if unicode.len() == 0 {
        Some(Seq::empty())
    } else {
        let c = unicode[0];
        if 'a' <= c && c <= 'z' {
            if unicode.len() > 1 && unicode[1] == COMBINING_GRAVE {
                prepend(seq![c], spec_unicode_to_ascii(unicode.skip(2)))
            } else {
                prepend(seq![c], spec_unicode_to_ascii(unicode.skip(1)))
            }
        } else if c == E_CIRCUMFLEX {
            if unicode.len() > 1 && (unicode[1] == COMBINING_MACRON || unicode[1]
                == COMBINING_CARON) {
                prepend(seq!['e'], spec_unicode_to_ascii(unicode.skip(2)))
            } else {
                None
            }
        } else {
            match spec_strip_tone(c) {
                Some(b) => prepend(seq![b], spec_unicode_to_ascii(unicode.skip(1))),
                None => None,
            }
        }
    }
}

/// The full pinyin without tones, as characters.
pub fn unicode_to_ascii_chars(unicode: &[char]) -> (r: Option<Vec<char>>)
    ensures
        view_of_chars(r) == spec_unicode_to_ascii(unicode@),
{
    let mut out: Vec<char> = Vec::new();
    let mut i: usize = 0;
    proof {
        assert(unicode@.skip(0) == unicode@);
        let whole = spec_unicode_to_ascii(unicode@);
        if whole is Some {
            assert(Seq::<char>::empty() + whole->0 == whole->0);
        }
    }
    while i < unicode.len()
        invariant
            i <= unicode.len(),
            spec_unicode_to_ascii(unicode@) == prepend(
                out@,
                spec_unicode_to_ascii(unicode@.skip(i as int)),
            ),
        decreases unicode.len() - i,
    {
        let c = unicode[i];
        let ghost rest = unicode@.skip(i as int);
        let ghost before = out@;
        proof {
            assert(rest[0] == c);
            assert(rest.skip(1) == unicode@.skip(i as int + 1));
            if i + 1 < unicode.len() {
                assert(rest[1] == unicode@[i as int + 1]);
                assert(rest.skip(2) == unicode@.skip(i as int + 2));
            }
        }
        if 'a' <= c && c <= 'z' {
            out.push(c);
            if i + 1 < unicode.len() && unicode[i + 1] == COMBINING_GRAVE {
                i = i + 2;
            } else {
                i = i + 1;
            }
            proof {
                let tail = spec_unicode_to_ascii(unicode@.skip(i as int));
                if tail is Some {
                    assert(before + (seq![c] + tail->0) == before.push(c) + tail->0);
                }
            }
        } else if c == E_CIRCUMFLEX {
            if i + 1 < unicode.len() && (unicode[i + 1] == COMBINING_MACRON || unicode[i + 1]
                == COMBINING_CARON) {
                out.push('e');
                i = i + 2;
                proof {
                    let tail = spec_unicode_to_ascii(unicode@.skip(i as int));
                    if tail is Some {
                        assert(before + (seq!['e'] + tail->0) == before.push('e') + tail->0);
                    }
                }
            } else {
                return None;
            }
        } else {
            match strip_tone(c) {
                Some(b) => {
                    out.push(b);
                    i = i + 1;
                    proof {
                        let tail = spec_unicode_to_ascii(unicode@.skip(i as int));
                        if tail is Some {
                            assert(before + (seq![b] + tail->0) == before.push(b) + tail->0);
                        }
                    }
                },
                None => {
                    return None;
                },
            }
        }
    }
    proof {
        assert(unicode@.skip(i as int).len() == 0);
        assert(out@ + Seq::<char>::empty() == out@);
    }
    Some(out)
}

/// What a function on characters yields, held in a `PinyinString`: `None`
/// where there is no value or where it takes more than seven bytes.
pub open spec fn fits(value: Option<Seq<char>>) -> Option<Seq<char>> {
    match value {
        Some(s) => if utf8_len(s) <= 7 {
            Some(s)
        } else {
            None
        },
        None => None,
    }
}

fn store(value: Option<Vec<char>>) -> (r: Option<PinyinString>)
    ensures
        view_of_string(r) == fits(view_of_chars(value)),
{
    match value {
        Some(v) => PinyinString::from_chars(v.as_slice()),
        None => None,
    }
}

/// The full pinyin without tones of a pinyin in the Unicode notation.
pub fn unicode_to_ascii(unicode: &str) -> (r: Option<PinyinString>)
    ensures
        view_of_string(r) == fits(spec_unicode_to_ascii(unicode@)),
{
    let chars = chars_of(unicode);
    store(unicode_to_ascii_chars(chars.as_slice()))
}

/// The tone that one character shows, if it shows one.
pub open spec fn spec_char_tone(c: char) -> Option<u8> {
    if c == '\u{101}' || c == '\u{113}' || c == '\u{12B}' || c == '\u{14D}' || c == '\u{16B}' || c
        == COMBINING_MACRON {
        Some(1u8)
    } else if c == '\u{E1}' || c == '\u{E9}' || c == '\u{1EBF}' || c == '\u{ED}' || c == '\u{F3}'
        || c == '\u{FA}' || c == '\u{1D8}' || c == '\u{1E3F}' || c == '\u{144}' {
        Some(2u8)
    } else if c == '\u{1CE}' || c == '\u{11B}' || c == '\u{1D0}' || c == '\u{1D2}' || c
        == '\u{1D4}' || c == '\u{1DA}' || c == '\u{148}' || c == COMBINING_CARON {
        Some(3u8)
    } else if c == '\u{E0}' || c == '\u{E8}' || c == '\u{1EC1}' || c == '\u{EC}' || c == '\u{F2}'
        || c == '\u{F9}' || c == '\u{1DC}' || c == '\u{1F9}' || c == COMBINING_GRAVE {
        Some(4u8)
    } else {
        None
    }
}

fn char_tone(c: char) -> (r: Option<u8>)
    ensures
        r == spec_char_tone(c),
{
    if c == '\u{101}' || c == '\u{113}' || c == '\u{12B}' || c == '\u{14D}' || c == '\u{16B}' || c
        == COMBINING_MACRON {
        Some(1u8)
    } else if c == '\u{E1}' || c == '\u{E9}' || c == '\u{1EBF}' || c == '\u{ED}' || c == '\u{F3}'
        || c == '\u{FA}' || c == '\u{1D8}' || c == '\u{1E3F}' || c == '\u{144}' {
        Some(2u8)
    } else if c == '\u{1CE}' || c == '\u{11B}' || c == '\u{1D0}' || c == '\u{1D2}' || c
        == '\u{1D4}' || c == '\u{1DA}' || c == '\u{148}' || c == COMBINING_CARON {
        Some(3u8)
    } else if c == '\u{E0}' || c == '\u{E8}' || c == '\u{1EC1}' || c == '\u{EC}' || c == '\u{F2}'
        || c == '\u{F9}' || c == '\u{1DC}' || c == '\u{1F9}' || c == COMBINING_GRAVE {
        Some(4u8)
    } else {
        None
    }
}

/// The tone of a pinyin in the Unicode notation: that of the first
/// character that shows one, and 5, the neutral tone, if none does.
pub open spec fn spec_unicode_tone(unicode: Seq<char>) -> u8
    decreases unicode.len(),
{
    if unicode.len() == 0 {
        5
    } else {
        match spec_char_tone(unicode[0]) {
            Some(t) => t,
            None => spec_unicode_tone(unicode.skip(1)),
        }
    }
}

/// The tone of a pinyin in the Unicode notation, in `1..=5`.
pub fn unicode_tone(unicode: &[char]) -> (r: u8)
    ensures
        r == spec_unicode_tone(unicode@),
        1 <= r <= 5,
{
    let mut i: usize = 0;
    proof {
        assert(unicode@.skip(0) == unicode@);
    }
    while i < unicode.len()
        invariant
            i <= unicode.len(),
            spec_unicode_tone(unicode@) == spec_unicode_tone(unicode@.skip(i as int)),
        decreases unicode.len() - i,
    {
        proof {
            assert(unicode@.skip(i as int)[0] == unicode@[i as int]);
            assert(unicode@.skip(i as int).skip(1) == unicode@.skip(i as int + 1));
        }
        match char_tone(unicode[i]) {
            Some(t) => {
                return t;
            },
            None => {},
        }
        i = i + 1;
    }
    5
}

/// The digit that stands for a tone.
pub open spec fn tone_digit(tone: u8) -> char {
    if tone == 1 {
        '1'
    } else if tone == 2 {
        '2'
    } else if tone == 3 {
        '3'
    } else if tone == 4 {
        '4'
    } else {
        '5'
    }
}

/// The full pinyin followed by the digit of its tone.
pub open spec fn spec_unicode_to_ascii_tone(unicode: Seq<char>) -> Option<Seq<char>> {
    match spec_unicode_to_ascii(unicode) {
        Some(ascii) => Some(ascii.push(tone_digit(spec_unicode_tone(unicode)))),
        None => None,
    }
}

/// The full pinyin followed by the digit of its tone.
pub fn unicode_to_ascii_tone(unicode: &str) -> (r: Option<PinyinString>)
    ensures
        view_of_string(r) == fits(spec_unicode_to_ascii_tone(unicode@)),
{
    let chars = chars_of(unicode);
    match unicode_to_ascii_chars(chars.as_slice()) {
        Some(ascii) => {
            let mut ascii = ascii;
            let tone = unicode_tone(chars.as_slice());
            let digit = if tone == 1 {
                '1'
            } else if tone == 2 {
                '2'
            } else if tone == 3 {
                '3'
            } else if tone == 4 {
                '4'
            } else {
                '5'
            };
            ascii.push(digit);
            store(Some(ascii))
        },
        None => None,
    }
}

/// The value under `key` in a table of entries `key=value`, a space
/// between two entries, searched from `from`, the start of an entry.
pub open spec fn spec_lookup(table: Seq<char>, from: int, key: Seq<char>) -> Option<Seq<char>>
    decreases table.len() - from,
    via spec_lookup_decreases
{
    if from < 0 || from >= table.len() {
        None
    } else {
        let eq = index_of(table, from, '=');
        let end = index_of(table, eq, ' ');
        if eq < table.len() && table.subrange(from, eq) == key {
            Some(table.subrange(eq + 1, end))
        } else if end >= table.len() {
            None
        } else {
            spec_lookup(table, end + 1, key)
        }
    }
}

#[via_fn]
proof fn spec_lookup_decreases(table: Seq<char>, from: int, key: Seq<char>) {
    if 0 <= from < table.len() {
        lemma_index_of_bounds(table, from, '=');
        lemma_index_of_bounds(table, index_of(table, from, '='), ' ');
    }
}

/// The value under `key` in a table of entries `key=value`.
pub fn lookup(table: &[char], key: &[char]) -> (r: Option<Vec<char>>)
    ensures
        view_of_chars(r) == spec_lookup(table@, 0, key@),
{
    let mut from: usize = 0;
    while from < table.len()
        invariant
            spec_lookup(table@, 0, key@) == spec_lookup(table@, from as int, key@),
        decreases table.len() - from,
    {
        let eq = find_char(table, from, '=');
        let end = find_char(table, eq, ' ');
        if eq < table.len() && range_eq(table, from, eq, key) {
            return Some(copy_range(table, eq + 1, end));
        }
        if end == table.len() {
            return None;
        }
        from = end + 1;
    }
    None
}

/// Where a full pinyin parts into its initial and its final: before the
/// first letter if that is one of `aeiouv`, after `zh`, `ch` or `sh`, and
/// after the first letter otherwise.
pub open spec fn spec_split_point(ascii: Seq<char>) -> int {
    if ascii.len() == 0 {
        0
    } else if ascii[0] == 'a' || ascii[0] == 'e' || ascii[0] == 'i' || ascii[0] == 'o' || ascii[0]
        == 'u' || ascii[0] == 'v' {
        0
    } else if (ascii[0] == 'z' || ascii[0] == 'c' || ascii[0] == 's') && ascii.len() > 1
        && ascii[1] == 'h' {
        2
    } else {
        1
    }
}

/// Where a full pinyin parts into its initial and its final.
pub fn split_point(ascii: &[char]) -> (r: usize)
    ensures
        r == spec_split_point(ascii@),
        r <= ascii.len(),
{
    if ascii.len() == 0 {
        return 0;
    }
    let c = ascii[0];
    if c == 'a' || c == 'e' || c == 'i' || c == 'o' || c == 'u' || c == 'v' {
        0
    } else if (c == 'z' || c == 'c' || c == 's') && ascii.len() > 1 && ascii[1] == 'h' {
        2
    } else {
        1
    }
}

/// The syllable that a double-letter scheme takes in place of one that
/// has no vowel: `hm` as `hen`, `hng` as `heng`, `m` as `mu`, `n` and `ng`
/// as `en`.
pub open spec fn spec_normalize(ascii: Seq<char>) -> Seq<char> {
    if ascii == seq!['h', 'm'] {
        seq!['h', 'e', 'n']
    } else if ascii == seq!['h', 'n', 'g'] {
        seq!['h', 'e', 'n', 'g']
    } else if ascii == seq!['m'] {
        seq!['m', 'u']
    } else if ascii == seq!['n'] || ascii == seq!['n', 'g'] {
        seq!['e', 'n']
    } else {
        ascii
    }
}

fn normalize(ascii: Vec<char>) -> (r: Vec<char>)
    ensures
        r@ == spec_normalize(ascii@),
{
    let n = ascii.len();
    if n == 2 && ascii[0] == 'h' && ascii[1] == 'm' {
        assert(ascii@ =~= seq!['h', 'm']);
        vec!['h', 'e', 'n']
    } else if n == 3 && ascii[0] == 'h' && ascii[1] == 'n' && ascii[2] == 'g' {
        assert(ascii@ =~= seq!['h', 'n', 'g']);
        vec!['h', 'e', 'n', 'g']
    } else if n == 1 && ascii[0] == 'm' {
        assert(ascii@ =~= seq!['m']);
        vec!['m', 'u']
    } else if n == 1 && ascii[0] == 'n' {
        assert(ascii@ =~= seq!['n']);
        vec!['e', 'n']
    } else if n == 2 && ascii[0] == 'n' && ascii[1] == 'g' {
        assert(ascii@ =~= seq!['n', 'g']);
        vec!['e', 'n']
    } else {
        proof {
            let s = ascii@;
            assert(s != seq!['h', 'm']) by {
                if s == seq!['h', 'm'] {
                    assert(s.len() == 2 && s[0] == 'h' && s[1] == 'm');
                }
            }
            assert(s != seq!['h', 'n', 'g']) by {
                if s == seq!['h', 'n', 'g'] {
                    assert(s.len() == 3 && s[0] == 'h' && s[1] == 'n' && s[2] == 'g');
                }
            }
            assert(s != seq!['m']) by {
                if s == seq!['m'] {
                    assert(s.len() == 1 && s[0] == 'm');
                }
            }
            assert(s != seq!['n']) by {
                if s == seq!['n'] {
                    assert(s.len() == 1 && s[0] == 'n');
                }
            }
            assert(s != seq!['n', 'g']) by {
                if s == seq!['n', 'g'] {
                    assert(s.len() == 2 && s[0] == 'n' && s[1] == 'g');
                }
            }
        }
        ascii
    }
}

/// The double-letter form of a full pinyin, in the scheme that the three
/// tables give:
/// - a syllable without a vowel is first taken as `spec_normalize` says;
/// - a syllable that `syllables` lists has the form listed there;
/// - one without an initial stands for itself;
/// - any other is the letter that `initials` lists for its initial, or its
///   initial where none is listed, followed by what `finals` lists for its
///   final; `None` where its final is not listed.
pub open spec fn spec_ascii_to_diletter(
    ascii: Seq<char>,
    syllables: Seq<char>,
    initials: Seq<char>,
    finals: Seq<char>,
) -> Option<Seq<char>> {
    let ascii = spec_normalize(ascii);
    match spec_lookup(syllables, 0, ascii) {
        Some(s) => fits(Some(s)),
        None => {
            let at = spec_split_point(ascii);
            let initial = ascii.subrange(0, at);
            let last = ascii.subrange(at, ascii.len() as int);
            if at == 0 {
                fits(Some(last))
            } else {
                match spec_lookup(finals, 0, last) {
                    Some(f) => match spec_lookup(initials, 0, initial) {
                        Some(i) => fits(Some(i + f)),
                        None => fits(Some(initial + f)),
                    },
                    None => None,
                }
            }
        },
    }
}

fn concat(a: Vec<char>, b: Vec<char>) -> (r: Vec<char>)
    ensures
        r@ == a@ + b@,
{
    let mut out = a;
    let mut i: usize = 0;
    while i < b.len()
        invariant
            i <= b.len(),
            out@ == a@ + b@.subrange(0, i as int),
        decreases b.len() - i,
    {
        out.push(b[i]);
        proof {
            assert(b@.subrange(0, i as int + 1) == b@.subrange(0, i as int).push(b@[i as int]));
            assert(a@ + b@.subrange(0, i as int + 1) == (a@ + b@.subrange(0, i as int)).push(
                b@[i as int],
            ));
        }
        i = i + 1;
    }
    proof {
        assert(b@.subrange(0, i as int) == b@);
    }
    out
}

/// The double-letter form of a full pinyin, in the scheme that the three
/// tables give.
pub fn ascii_to_diletter(
    ascii: &str,
    syllables: &str,
    initials: &str,
    finals: &str,
) -> (r: Option<PinyinString,>)
    ensures
        view_of_string(r) == spec_ascii_to_diletter(
            ascii@,
            syllables@,
            initials@,
            finals@,
        ),
{
    let ascii = normalize(chars_of(ascii));
    let syllables = chars_of(syllables);
    match lookup(syllables.as_slice(), ascii.as_slice()) {
        Some(s) => store(Some(s)),
        None => {
            let at = split_point(ascii.as_slice());
            let last = copy_range(ascii.as_slice(), at, ascii.len());
            if at == 0 {
                store(Some(last))
            } else {
                let finals = chars_of(finals);
                match lookup(finals.as_slice(), last.as_slice()) {
                    Some(f) => {
                        let initial = copy_range(ascii.as_slice(), 0, at);
                        let initials = chars_of(initials);
                        match lookup(initials.as_slice(), initial.as_slice()) {
                            Some(i) => store(Some(concat(i, f))),
                            None => store(Some(concat(initial, f))),
                        }
                    },
                    None => None,
                }
            }
        },
    }
}

/// Zhineng ABC: whole syllables, initials and finals.
pub const ABC_SYLLABLES: &'static str = "e=oe o=oo a=oa ei=oq ai=ol ou=ob ao=ok en=of an=oj eng=og ang=oh";

pub const ABC_INITIALS: &'static str = "zh=a ch=e sh=v";

pub const ABC_FINALS: &'static str = "i=i u=u v=v e=e ie=x o=o uo=o ue=m ve=m a=a ia=d ua=d ei=q ui=m ai=l uai=c ou=b iu=r ao=k iao=z in=c un=n vn=n en=f an=j ian=w uan=p van=p ing=y ong=s iong=s eng=g ang=h iang=t uang=t er=or";

/// Pinyin Jiajia: whole syllables, initials and finals.
pub const JIAJIA_SYLLABLES: &'static str = "e=ee o=oo a=aa ei=ew ai=as ou=op ao=ad en=er an=af eng=et ang=ag";

pub const JIAJIA_INITIALS: &'static str = "zh=v ch=u sh=i";

pub const JIAJIA_FINALS: &'static str = "i=i u=u v=v e=e ie=m o=o uo=o ue=x ve=t a=a ia=b ua=b ei=w ui=v ai=s uai=x ou=p iu=n ao=d iao=k in=l un=z vn=z en=r an=f ian=j uan=c van=c ing=q ong=y iong=y eng=t ang=g iang=h uang=h er=eq";

/// Microsoft Pinyin: whole syllables, initials and finals.
pub const MICROSOFT_SYLLABLES: &'static str = "e=oe o=oo a=oa ei=oz ai=ol ou=ob ao=ok en=of an=oj eng=og ang=oh";

pub const MICROSOFT_INITIALS: &'static str = "zh=v ch=i sh=u";

pub const MICROSOFT_FINALS: &'static str = "i=i u=u v=y e=e ie=x o=o uo=o ue=t ve=v a=a ia=w ua=w ei=z ui=v ai=l uai=y ou=b iu=q ao=k iao=c in=n un=p vn=p en=f an=j ian=m uan=r van=r ing=; ong=s iong=s eng=g ang=h iang=d uang=d er=or";

/// Thunisoft: whole syllables, initials and finals.
pub const THUNISOFT_SYLLABLES: &'static str = "e=oe o=oo a=oa ei=ok ai=op ou=oz ao=oq en=ow an=or eng=ot ang=os";

pub const THUNISOFT_INITIALS: &'static str = "zh=u ch=a sh=i";

pub const THUNISOFT_FINALS: &'static str = "i=i u=u v=v e=e ie=d o=o uo=o ue=n ve=n a=a ia=x ua=x ei=k ui=n ai=p uai=y ou=z iu=j ao=q iao=b in=y un=m vn=y en=w an=r ian=f uan=l van=l ing=; ong=h iong=h eng=t ang=s iang=g uang=g er=oj";

/// Xiaohe: whole syllables, initials and finals.
pub const XIAOHE_SYLLABLES: &'static str = "e=ee o=oo a=aa ei=ei ai=ai ou=ou ao=ao en=en an=an eng=eg ang=ah";

pub const XIAOHE_INITIALS: &'static str = "zh=v ch=i sh=u";

pub const XIAOHE_FINALS: &'static str = "i=i u=u v=v e=e ie=p o=o uo=o ue=t ve=t a=a ia=x ua=x ei=w ui=v ai=d uai=k ou=z iu=q ao=c iao=n in=b un=y vn=y en=f an=j ian=m uan=r van=r ing=k ong=s iong=s eng=g ang=h iang=l uang=l er=er";

/// Ziranma: whole syllables, initials and finals.
pub const ZRM_SYLLABLES: &'static str = "e=ee o=oo a=aa ei=ei ai=ai ou=ou ao=ao en=en an=an eng=eg ang=ah";

pub const ZRM_INITIALS: &'static str = "zh=v ch=i sh=u";

pub const ZRM_FINALS: &'static str = "i=i u=u v=v e=e ie=x o=o uo=o ue=t ve=t a=a ia=w ua=w ei=z ui=v ai=l uai=y ou=b iu=q ao=k iao=c in=n un=p vn=p en=f an=j ian=m uan=r van=r ing=; ong=s iong=s eng=g ang=h iang=d uang=d er=er";

/// The double-letter form of a full pinyin in the scheme of Zhineng ABC.
pub fn ascii_to_diletter_abc(ascii: &str) -> (r: Option<PinyinString>)
    ensures
        view_of_string(r) == spec_ascii_to_diletter(
            ascii@,
            ABC_SYLLABLES@,
            ABC_INITIALS@,
            ABC_FINALS@,
        ),
{
    ascii_to_diletter(ascii, ABC_SYLLABLES, ABC_INITIALS, ABC_FINALS)
}

/// The double-letter form of a full pinyin in the scheme of Pinyin Jiajia.
pub fn ascii_to_diletter_jiajia(ascii: &str) -> (r: Option<PinyinString>)
    ensures
        view_of_string(r) == spec_ascii_to_diletter(
            ascii@,
            JIAJIA_SYLLABLES@,
            JIAJIA_INITIALS@,
            JIAJIA_FINALS@,
        ),
{
    ascii_to_diletter(ascii, JIAJIA_SYLLABLES, JIAJIA_INITIALS, JIAJIA_FINALS)
}

/// The double-letter form of a full pinyin in the scheme of Microsoft Pinyin.
pub fn ascii_to_diletter_microsoft(ascii: &str) -> (r: Option<PinyinString>)
    ensures
        view_of_string(r) == spec_ascii_to_diletter(
            ascii@,
            MICROSOFT_SYLLABLES@,
            MICROSOFT_INITIALS@,
            MICROSOFT_FINALS@,
        ),
{
    ascii_to_diletter(ascii, MICROSOFT_SYLLABLES, MICROSOFT_INITIALS, MICROSOFT_FINALS)
}

/// The double-letter form of a full pinyin in the scheme of Thunisoft.
pub fn ascii_to_diletter_thunisoft(ascii: &str) -> (r: Option<PinyinString>)
    ensures
        view_of_string(r) == spec_ascii_to_diletter(
            ascii@,
            THUNISOFT_SYLLABLES@,
            THUNISOFT_INITIALS@,
            THUNISOFT_FINALS@,
        ),
{
    ascii_to_diletter(ascii, THUNISOFT_SYLLABLES, THUNISOFT_INITIALS, THUNISOFT_FINALS)
}

/// The double-letter form of a full pinyin in the scheme of Xiaohe.
pub fn ascii_to_diletter_xiaohe(ascii: &str) -> (r: Option<PinyinString>)
    ensures
        view_of_string(r) == spec_ascii_to_diletter(
            ascii@,
            XIAOHE_SYLLABLES@,
            XIAOHE_INITIALS@,
            XIAOHE_FINALS@,
        ),
{
    ascii_to_diletter(ascii, XIAOHE_SYLLABLES, XIAOHE_INITIALS, XIAOHE_FINALS)
}

/// The double-letter form of a full pinyin in the scheme of Ziranma.
pub fn ascii_to_diletter_zrm(ascii: &str) -> (r: Option<PinyinString>)
    ensures
        view_of_string(r) == spec_ascii_to_diletter(
            ascii@,
            ZRM_SYLLABLES@,
            ZRM_INITIALS@,
            ZRM_FINALS@,
        ),
{
    ascii_to_diletter(ascii, ZRM_SYLLABLES, ZRM_INITIALS, ZRM_FINALS)
}

/// The three tables of a double-letter scheme; three empty tables for
/// any other notation.
pub open spec fn spec_scheme_tables(notation: PinyinNotation) -> (Seq<char>, Seq<char>, Seq<char>) {
    if notation.0 == DILETTER_ABC {
        (ABC_SYLLABLES@, ABC_INITIALS@, ABC_FINALS@)
    } else if notation.0 == DILETTER_JIAJIA {
        (JIAJIA_SYLLABLES@, JIAJIA_INITIALS@, JIAJIA_FINALS@)
    } else if notation.0 == DILETTER_MICROSOFT {
        (MICROSOFT_SYLLABLES@, MICROSOFT_INITIALS@, MICROSOFT_FINALS@)
    } else if notation.0 == DILETTER_THUNISOFT {
        (THUNISOFT_SYLLABLES@, THUNISOFT_INITIALS@, THUNISOFT_FINALS@)
    } else if notation.0 == DILETTER_XIAOHE {
        (XIAOHE_SYLLABLES@, XIAOHE_INITIALS@, XIAOHE_FINALS@)
    } else if notation.0 == DILETTER_ZRM {
        (ZRM_SYLLABLES@, ZRM_INITIALS@, ZRM_FINALS@)
    } else {
        (Seq::empty(), Seq::empty(), Seq::empty())
    }
}

/// The double-letter form of a full pinyin in the scheme `notation`.
pub open spec fn spec_ascii_map(notation: PinyinNotation, ascii: Seq<char>) -> Option<Seq<char>> {
    let tables = spec_scheme_tables(notation);
    spec_ascii_to_diletter(ascii, tables.0, tables.1, tables.2)
}

/// The double-letter form of a full pinyin in the scheme `notation`.
pub fn ascii_map_fn(notation: PinyinNotation, ascii: &str) -> (r: Option<PinyinString>)
    requires
        notation.spec_contains_diletter(),
        notation.is_single(),
    ensures
        view_of_string(r) == spec_ascii_map(notation, ascii@),
{
    if notation.0 == DILETTER_ABC {
        ascii_to_diletter_abc(ascii)
    } else if notation.0 == DILETTER_JIAJIA {
        ascii_to_diletter_jiajia(ascii)
    } else if notation.0 == DILETTER_MICROSOFT {
        ascii_to_diletter_microsoft(ascii)
    } else if notation.0 == DILETTER_THUNISOFT {
        ascii_to_diletter_thunisoft(ascii)
    } else if notation.0 == DILETTER_XIAOHE {
        ascii_to_diletter_xiaohe(ascii)
    } else {
        proof {
            let b = notation.0;
            assert(b & 0x3F0 != 0 && (b == 0x1 || b == 0x2 || b == 0x4 || b == 0x8 || b == 0x10 || b
                == 0x20 || b == 0x40 || b == 0x80 || b == 0x100 || b == 0x200) ==> (b == 0x10 || b
                == 0x20 || b == 0x40 || b == 0x80 || b == 0x100 || b == 0x200)) by (bit_vector);
        }
        ascii_to_diletter_zrm(ascii)
    }
}

} // verus!
