//! Hepburn romanization of kana, of kanji and of the words of a
//! dictionary.
use vstd::prelude::*;
use crate::unicode::utf8::{
    char_len_utf8, chars_of, find_char, floor_chars, index_of, lemma_floor_chars,
    lemma_utf8_len_bounds, lemma_utf8_len_is_encoded_len, lemma_utf8_len_monotonic,
    lemma_utf8_len_push, len_utf8, string_of, truncate, utf8_len,
};

verus! {

/// The fewest bytes that can be romanized: those of the shortest kanji.
pub const MIN_LEN: usize = 2;

/// The fewest bytes that a kanji takes.
pub const KANJI_MIN_LEN: usize = 2;

/// The most bytes that a kanji takes.
pub const KANJI_MAX_LEN: usize = 4;

/// The most bytes of a haystack that are looked at for a kana or a word.
pub const WORD_MAX_LEN: usize = 81;

/// The ideographic comma, which `romanize_kana_str` passes through.
pub const IDEOGRAPHIC_COMMA: char = '\u{3001}';

/// One kanji and its readings in romaji.
pub struct KanjiReadings {
    pub kanji: char,
    pub romajis: Vec<String>,
}

/// The tables of a romaji dictionary.
pub struct RomajiTable {
    /// Each kana, alone or in a group that is read as one.
    pub kanas: Vec<String>,
    /// The romaji of each kana, in the order of `kanas`.
    pub kana_romajis: Vec<String>,
    /// The words, one per line.
    pub words: String,
    /// The readings of each word, in the order of `words`.
    pub word_romajis: Vec<Vec<String>>,
    pub kanjis: Vec<KanjiReadings>,
}

/// The characters of each string.
pub open spec fn strings_view(v: Seq<String>) -> Seq<Seq<char>> {
    Seq::new(v.len(), |i: int| v[i]@)
}

/// The lines of `s`: what stands between two line feeds, before the first
/// and after the last. A string without a line feed is one line.
pub open spec fn spec_split_lines(s: Seq<char>) -> Seq<Seq<char>>
    decreases s.len(),
{
    let end = index_of(s, 0, '\n');
    if end < 0 || end >= s.len() {
        seq![s]
    } else {
        seq![s.take(end)] + spec_split_lines(s.skip(end + 1))
    }
}

/// The lines of `s`.
pub fn split_lines(s: &str) -> (r: Vec<String>)
    ensures
        strings_view(r@) == spec_split_lines(s@),
{
    let chars = chars_of(s);
    let mut out: Vec<String> = Vec::new();
    let mut from: usize = 0;
    proof {
        assert(chars@.skip(0) == chars@);
        assert(strings_view(out@) + spec_split_lines(chars@) =~= spec_split_lines(chars@));
    }
    loop
        invariant
            from <= chars.len(),
            chars@ == s@,
            spec_split_lines(s@) == strings_view(out@) + spec_split_lines(chars@.skip(from as int)),
        decreases chars.len() - from,
    {
        let end = find_char(chars.as_slice(), from, '\n');
        let line = string_of(chars.as_slice(), from, end);
        let ghost rest = chars@.skip(from as int);
        let ghost before = strings_view(out@);
        proof {
            lemma_index_shift(chars@, from as int, from as int, '\n');
            assert(rest.take(end - from) == chars@.subrange(from as int, end as int));
        }
        out.push(line);
        proof {
            assert(strings_view(out@) =~= before + seq![line@]);
        }
        if end == chars.len() {
            proof {
                assert(rest.take(rest.len() as int) == rest);
                assert(strings_view(out@) =~= before + spec_split_lines(rest));
            }
            return out;
        }
        proof {
            assert(rest.skip(end - from + 1) == chars@.skip(end + 1));
            assert(before + (seq![line@] + spec_split_lines(chars@.skip(end + 1))) =~= (before
                + seq![line@]) + spec_split_lines(chars@.skip(end + 1)));
        }
        from = end + 1;
    }
}

/// Searching a suffix finds what searching the whole finds, shifted.
pub proof fn lemma_index_shift(s: Seq<char>, base: int, from: int, c: char)
    requires
        0 <= base <= from <= s.len(),
    ensures
        index_of(s.skip(base), from - base, c) == index_of(s, from, c) - base,
    decreases s.len() - from,
{
    if from < s.len() {
        assert(s.skip(base)[from - base] == s[from]);
        if s[from] != c {
            lemma_index_shift(s, base, from + 1, c);
        }
    }
}

/// `daachorse::CharwiseDoubleArrayAhoCorasick`: an automaton that looks for
/// many patterns at once, character by character.
#[verifier::external_type_specification]
#[verifier::external_body]
#[verifier::reject_recursive_types(V)]
pub struct ExCharwiseDoubleArrayAhoCorasick<V>(daachorse::CharwiseDoubleArrayAhoCorasick<V>);

/// `daachorse::errors::DaachorseError`: why an automaton could not be
/// built.
#[verifier::external_type_specification]
#[verifier::external_body]
pub struct ExDaachorseError(daachorse::errors::DaachorseError);

/// The patterns that an automaton was built from, in the order in which
/// they were given; the value of a pattern is its place in that order.
pub uninterp spec fn charwise_patterns(
    ac: daachorse::CharwiseDoubleArrayAhoCorasick<u32>,
) -> Seq<Seq<char>>;

/// Whether an automaton was built for leftmost-longest matches.
pub uninterp spec fn charwise_leftmost_longest(
    ac: daachorse::CharwiseDoubleArrayAhoCorasick<u32>,
) -> bool;

/// Whether the automaton for `patterns` can be built: there are no more
/// patterns than a `u32` counts, none is too long, and the automaton does
/// not grow too large.
pub uninterp spec fn charwise_builds(patterns: Seq<Seq<char>>) -> bool;

/// The first leftmost-longest match of the patterns in a haystack: where
/// it starts and ends, in bytes, and the value of its pattern.
pub uninterp spec fn leftmost_longest_match(
    patterns: Seq<Seq<char>>,
    haystack: Seq<char>,
) -> Option<(usize, usize, u32),>;

/// Whether the pattern of value `v` stands in `haystack` from its `i`-th
/// character on.
pub open spec fn occurs_at(patterns: Seq<Seq<char>>, haystack: Seq<char>, i: int, v: int) -> bool {
    &&& 0 <= v < patterns.len()
    &&& 0 <= i
    &&& i + patterns[v].len() <= haystack.len()
    &&& haystack.subrange(i, i + patterns[v].len()) == patterns[v]
}

/// Of a match of the automaton, the one that starts at the start of the
/// haystack: the characters of its pattern, the bytes that it takes, and
/// the value of the pattern.
pub open spec fn spec_leading(
    patterns: Seq<Seq<char>>,
    found: Option<(usize, usize, u32)>,
) -> Option<(usize, usize, usize)> {
    match found {
        Some((start, end, value)) => if start == 0 && value < patterns.len() {
            Some((patterns[value as int].len() as usize, end, value as usize))
        } else {
            None
        },
        None => None,
    }
}

/// What a leftmost-longest match is: none if no pattern stands anywhere
/// in the haystack; else a pattern where it stands, such that no pattern
/// stands further left, and none that stands at the same place is longer.
pub open spec fn is_leftmost_longest(
    patterns: Seq<Seq<char>>,
    haystack: Seq<char>,
    found: Option<(usize, usize, u32)>,
) -> bool {
    match found {
        None => forall|i: int, v: int| !occurs_at(patterns, haystack, i, v),
        Some((start, end, value)) => exists|i: int|
            {
                &&& #[trigger] occurs_at(patterns, haystack, i, value as int)
                &&& start == utf8_len(haystack.take(i))
                &&& end == utf8_len(haystack.take(i + patterns[value as int].len()))
                &&& forall|i2: int, v2: int| #[trigger]
                    occurs_at(patterns, haystack, i2, v2) ==> i <= i2 && (i2 == i
                        ==> patterns[v2].len() <= patterns[value as int].len())
            },
    }
}

/// `CharwiseDoubleArrayAhoCorasickBuilder::build` with
/// `MatchKind::LeftmostLongest`, on the strings of `first` followed by
/// those of `second`. The automaton holds the patterns in that order, and
/// the value of each is its place in it. The builder fails where there
/// are more patterns than a `u32` counts, or the automaton grows too
/// large.
#[verifier::external_body]
fn build_leftmost_longest(
    first: &[String],
    second: &[String],
) -> (r: Result<daachorse::CharwiseDoubleArrayAhoCorasick<u32>, daachorse::errors::DaachorseError,>)
    ensures
        r is Ok == charwise_builds(strings_view(first@) + strings_view(second@)),
        r is Ok ==> charwise_patterns(r->Ok_0) == strings_view(first@) + strings_view(second@),
        r is Ok ==> charwise_leftmost_longest(r->Ok_0),
{
    daachorse::CharwiseDoubleArrayAhoCorasickBuilder::new()
        .match_kind(daachorse::MatchKind::LeftmostLongest)
        .build(first.iter().chain(second.iter()))
}

/// The first item of `CharwiseDoubleArrayAhoCorasick::leftmost_find_iter`:
/// the first leftmost-longest match in `haystack`, with its offsets in
/// bytes and the value of its pattern. The iterator panics on an
/// automaton that was not built for leftmost matches.
#[verifier::external_body]
fn first_leftmost_match(
    ac: &daachorse::CharwiseDoubleArrayAhoCorasick<u32>,
    haystack: &str,
) -> (r: Option<(usize, usize, u32)>)
    requires
        charwise_leftmost_longest(*ac),
        forall|v: int|
            0 <= v < charwise_patterns(*ac).len() ==> (#[trigger] charwise_patterns(*ac)[v]).len()
                > 0,
    ensures
        r == leftmost_longest_match(charwise_patterns(*ac), haystack@),
        is_leftmost_longest(charwise_patterns(*ac), haystack@, r),
{
    ac.leftmost_find_iter(haystack).next().map(|m| (m.start(), m.end(), m.value()))
}

/// Why a romanizer could not be made.
#[derive(Clone, Copy, PartialEq, Eq, Structural, Debug)]
pub enum RomajiError {
    /// There are not as many romajis as kanas, or not as many rows of
    /// readings as words.
    LengthMismatch,
    /// A kana or a word is empty.
    EmptyPattern,
    /// The automaton could not be built.
    Automaton,
}

/// A romanizer of kana, kanji and words, as far as each is switched on.
pub struct HepburnRomanizer<'a> {
    ac: daachorse::CharwiseDoubleArrayAhoCorasick<u32>,
    table: &'a RomajiTable,
    words: Vec<String>,
    kana: bool,
    kanji: bool,
    word: bool,
    kana_max_len: usize,
}

/// The kanas and the words that a romanizer looks for, kanas first.
pub open spec fn spec_patterns(table: RomajiTable, kana: bool, word: bool) -> Seq<Seq<char>> {
    (if kana {
        strings_view(table.kanas@)
    } else {
        Seq::empty()
    }) + (if word {
        spec_split_lines(table.words@)
    } else {
        Seq::empty()
    })
}

/// Whether the tables do not fit together.
pub open spec fn spec_length_mismatch(table: RomajiTable, kana: bool, word: bool) -> bool {
    ||| kana && table.kanas@.len() != table.kana_romajis@.len()
    ||| word && spec_split_lines(table.words@).len() != table.word_romajis@.len()
}

/// Whether a kana or a word is empty.
pub open spec fn spec_has_empty_pattern(table: RomajiTable, kana: bool, word: bool) -> bool {
    exists|v: int|
        0 <= v < spec_patterns(table, kana, word).len() && (#[trigger] spec_patterns(
            table,
            kana,
            word,
        )[v]).len() == 0
}

/// The most bytes that one of `strings` takes.
pub open spec fn spec_max_len(strings: Seq<Seq<char>>) -> nat
    decreases strings.len(),
{
    if strings.len() == 0 {
        0
    } else {
        let rest = spec_max_len(strings.drop_last());
        if utf8_len(strings.last()) > rest {
            utf8_len(strings.last())
        } else {
            rest
        }
    }
}

/// No string takes more bytes than `spec_max_len` says.
pub proof fn lemma_max_len(strings: Seq<Seq<char>>, i: int)
    requires
        0 <= i < strings.len(),
    ensures
        utf8_len(strings[i]) <= spec_max_len(strings),
    decreases strings.len(),
{
    if i < strings.len() - 1 {
        lemma_max_len(strings.drop_last(), i);
    }
}

fn max_len(strings: &[String]) -> (r: usize)
    ensures
        r == spec_max_len(strings_view(strings@)),
{
    let mut best: usize = 0;
    let mut i: usize = 0;
    let ghost all = strings_view(strings@);
    while i < strings.len()
        invariant
            i <= strings.len(),
            all == strings_view(strings@),
            best == spec_max_len(all.take(i as int)),
        decreases strings.len() - i,
    {
        proof {
            assert(all.take(i as int + 1).drop_last() == all.take(i as int));
            lemma_utf8_len_is_encoded_len(strings@[i as int]@);
        }
        let n = strings[i].as_str().as_bytes().len();
        if n > best {
            best = n;
        }
        i = i + 1;
    }
    proof {
        assert(all.take(i as int) == all);
    }
    best
}

fn any_empty(strings: &[String]) -> (r: bool)
    ensures
        r == exists|i: int| 0 <= i < strings@.len() && (#[trigger] strings@[i])@.len() == 0,
{
    let mut i: usize = 0;
    while i < strings.len()
        invariant
            i <= strings.len(),
            forall|j: int| 0 <= j < i ==> (#[trigger] strings@[j])@.len() != 0,
        decreases strings.len() - i,
    {
        if strings[i].as_str().unicode_len() == 0 {
            return true;
        }
        i = i + 1;
    }
    false
}

impl<'a> HepburnRomanizer<'a> {
    /// The tables that the romanizer reads.
    pub closed spec fn table(&self) -> RomajiTable {
        *self.table
    }

    /// Whether kana are read.
    pub closed spec fn has_kana(&self) -> bool {
        self.kana
    }

    /// Whether kanji are read.
    pub closed spec fn has_kanji(&self) -> bool {
        self.kanji
    }

    /// Whether the words of the dictionary are read.
    pub closed spec fn has_word(&self) -> bool {
        self.word
    }

    /// The kanas and the words that the romanizer looks for, kanas first.
    pub open spec fn patterns(&self) -> Seq<Seq<char>> {
        spec_patterns(self.table(), self.has_kana(), self.has_word())
    }

    /// The number of kanas among the patterns.
    pub open spec fn kana_count(&self) -> nat {
        if self.has_kana() {
            self.table().kanas@.len()
        } else {
            0
        }
    }

    /// The most bytes that a kana takes.
    pub open spec fn spec_kana_max_len(&self) -> nat {
        if self.has_kana() {
            spec_max_len(strings_view(self.table().kanas@))
        } else {
            0
        }
    }

    /// The automaton holds the patterns, none of which is empty, and the
    /// tables fit together.
    pub closed spec fn wf(&self) -> bool {
        &&& charwise_patterns(self.ac) == self.patterns()
        &&& charwise_leftmost_longest(self.ac)
        &&& strings_view(self.words@) == (if self.word {
            spec_split_lines(self.table.words@)
        } else {
            Seq::empty()
        })
        &&& !spec_length_mismatch(*self.table, self.kana, self.word)
        &&& !spec_has_empty_pattern(*self.table, self.kana, self.word)
        &&& self.kana_max_len == self.spec_kana_max_len()
    }

    /// The romanizer that is made of an automaton, or of the failure to
    /// build one.
    fn assemble(
        built: Result<
            daachorse::CharwiseDoubleArrayAhoCorasick<u32>,
            daachorse::errors::DaachorseError,
        >,
        table: &'a RomajiTable,
        words: Vec<String>,
        kana: bool,
        kanji: bool,
        word: bool,
        kana_max_len: usize,
    ) -> (r: Result<HepburnRomanizer<'a>, RomajiError>)
        requires
            built is Ok ==> charwise_patterns(built->Ok_0) == spec_patterns(*table, kana, word)
                && charwise_leftmost_longest(built->Ok_0),
            strings_view(words@) == (if word {
                spec_split_lines(table.words@)
            } else {
                Seq::empty()
            }),
            !spec_length_mismatch(*table, kana, word),
            !spec_has_empty_pattern(*table, kana, word),
            kana_max_len == (if kana {
                spec_max_len(strings_view(table.kanas@))
            } else {
                0
            }),
        ensures
            built is Err ==> r == Err::<HepburnRomanizer<'a>, RomajiError>(RomajiError::Automaton),
            built is Ok ==> r is Ok && r->Ok_0.wf() && r->Ok_0.table() == *table
                && r->Ok_0.has_kana()
                == kana && r->Ok_0.has_kanji() == kanji && r->Ok_0.has_word() == word,
    {
        match built {
            Ok(ac) => Ok(HepburnRomanizer { ac, table, words, kana, kanji, word, kana_max_len }),
            Err(_) => Err(RomajiError::Automaton),
        }
    }

    /// The romanizer of `table` that reads kana, kanji and words as far as
    /// each is switched on.
    pub fn new(
        table: &'a RomajiTable,
        kana: bool,
        kanji: bool,
        word: bool,
    ) -> (r: Result<HepburnRomanizer<'a>, RomajiError,>)
        ensures
            spec_length_mismatch(*table, kana, word) ==> r == Err::<
                HepburnRomanizer<'a>,
                RomajiError,
            >(RomajiError::LengthMismatch),
            !spec_length_mismatch(*table, kana, word) && spec_has_empty_pattern(*table, kana, word)
                ==> r == Err::<HepburnRomanizer<'a>, RomajiError>(RomajiError::EmptyPattern),
            !spec_length_mismatch(*table, kana, word) && !spec_has_empty_pattern(*table, kana, word)
                && !charwise_builds(spec_patterns(*table, kana, word)) ==> r == Err::<
                HepburnRomanizer<'a>,
                RomajiError,
            >(RomajiError::Automaton),
            r is Ok == (!spec_length_mismatch(*table, kana, word) && !spec_has_empty_pattern(
                *table,
                kana,
                word,
            ) && charwise_builds(spec_patterns(*table, kana, word))),
            r is Ok ==> r->Ok_0.wf() && r->Ok_0.table() == *table && r->Ok_0.has_kana() == kana
                && r->Ok_0.has_kanji() == kanji && r->Ok_0.has_word() == word,
    {
        if kana && table.kanas.len() != table.kana_romajis.len() {
            return Err(RomajiError::LengthMismatch);
        }
        let words: Vec<String> = if word {
            split_lines(table.words.as_str())
        } else {
            Vec::new()
        };
        proof {
            if !word {
                assert(strings_view(words@) =~= Seq::<Seq<char>>::empty());
            }
        }
        if word && words.len() != table.word_romajis.len() {
            assert(strings_view(words@).len() == words@.len());
            return Err(RomajiError::LengthMismatch);
        }
        assert(strings_view(words@).len() == words@.len());
        let none: Vec<String> = Vec::new();
        let first: &[String] = if kana {
            table.kanas.as_slice()
        } else {
            none.as_slice()
        };
        proof {
            assert(strings_view(first@) =~= (if kana {
                strings_view(table.kanas@)
            } else {
                Seq::empty()
            }));
            assert(spec_patterns(*table, kana, word) == strings_view(first@) + strings_view(
                words@));
        }
        let ghost patterns = spec_patterns(*table, kana, word);
        if any_empty(first) || any_empty(words.as_slice()) {
            proof {
                if exists|i: int| 0 <= i < first@.len() && (#[trigger] first@[i])@.len() == 0 {
                    let i = choose|i: int| 0 <= i < first@.len()
                        && (#[trigger] first@[i])@.len() == 0;
                    assert(patterns[i] == first@[i]@);
                    assert(patterns[i].len() == 0);
                } else {
                    let i = choose|i: int| 0 <= i < words@.len()
                        && (#[trigger] words@[i])@.len() == 0;
                    assert(patterns[first@.len() + i] == words@[i]@);
                    assert(patterns[first@.len() + i].len() == 0);
                }
            }
            return Err(RomajiError::EmptyPattern);
        }
        proof {
            assert forall|v: int| 0 <= v < patterns.len() implies (#[trigger] patterns[v]).len()
                != 0 by {
                if v < first@.len() {
                    assert(patterns[v] == first@[v]@);
                } else {
                    assert(patterns[v] == words@[v - first@.len()]@);
                }
            }
        }
        let kana_max_len = max_len(first);
        proof {
            if !kana {
                assert(strings_view(first@) =~= Seq::<Seq<char>>::empty());
            }
        }
        let built = build_leftmost_longest(first, words.as_slice());
        Self::assemble(built, table, words, kana, kanji, word, kana_max_len)
    }
}

/// One way to read the start of a haystack: how many characters and bytes
/// of the haystack are read, and their romaji.
pub struct Romanized<'a> {
    pub chars: usize,
    pub len: usize,
    pub romaji: &'a str,
}

/// Each reading as numbers and characters.
pub open spec fn romanized_view(r: Seq<Romanized<'_>>) -> Seq<(nat, nat, Seq<char>)> {
    Seq::new(r.len(), |k: int| (r[k].chars as nat, r[k].len as nat, r[k].romaji@))
}

/// The readings of the first entry of `kanjis` for `c`; none if there is
/// no entry for it.
pub open spec fn spec_kanji_romajis(kanjis: Seq<KanjiReadings>, c: char) -> Seq<Seq<char>>
    decreases kanjis.len(),
{
    if kanjis.len() == 0 {
        Seq::empty()
    } else if kanjis[0].kanji == c {
        strings_view(kanjis[0].romajis@)
    } else {
        spec_kanji_romajis(kanjis.skip(1), c)
    }
}

/// Each of `romajis` as a reading of `chars` characters and `len` bytes.
pub open spec fn spec_readings(
    chars: nat,
    len: nat,
    romajis: Seq<Seq<char>>,
) -> Seq<(nat, nat, Seq<char>),> {
    Seq::new(romajis.len(), |k: int| (chars, len, romajis[k]))
}

fn push_readings<'a>(out: &mut Vec<Romanized<'a>>, chars: usize, len: usize, romajis: &'a [String])
    ensures
        romanized_view(final(out)@) == romanized_view(old(out)@) + spec_readings(
            chars as nat,
            len as nat,
            strings_view(romajis@),
        ),
{
    let mut k: usize = 0;
    let ghost before = romanized_view(out@);
    let ghost all = spec_readings(chars as nat, len as nat, strings_view(romajis@));
    proof {
        assert(before + all.take(0) =~= before);
    }
    while k < romajis.len()
        invariant
            k <= romajis.len(),
            all == spec_readings(chars as nat, len as nat, strings_view(romajis@)),
            romanized_view(out@) == before + all.take(k as int),
        decreases romajis.len() - k,
    {
        let ghost prev = romanized_view(out@);
        out.push(Romanized { chars, len, romaji: romajis[k].as_str() });
        proof {
            assert(romanized_view(out@) =~= prev.push(all[k as int]));
            assert(before + all.take(k as int + 1) =~= (before + all.take(k as int)).push(
                all[k as int],
            ));
        }
        k = k + 1;
    }
    proof {
        assert(all.take(k as int) == all);
    }
}

impl<'a> HepburnRomanizer<'a> {
    /// The readings of the kana or the word that stands at the start of
    /// `window`: those of the pattern that the automaton finds first, where
    /// it finds that pattern at the start.
    pub open spec fn spec_found(&self, window: Seq<char>) -> Seq<(nat, nat, Seq<char>)> {
        match leftmost_longest_match(self.patterns(), window) {
            Some((start, end, v)) => if start == 0 && occurs_at(
                self.patterns(),
                window,
                0,
                v as int,
            ) && self.patterns()[v as int].len() >= 1 && end == utf8_len(
                window.take(self.patterns()[v as int].len() as int),
            ) {
                let chars = self.patterns()[v as int].len();
                if v < self.kana_count() {
                    seq![(chars, end as nat, self.table().kana_romajis@[v as int]@)]
                } else {
                    spec_readings(
                        chars,
                        end as nat,
                        strings_view(self.table().word_romajis@[v - self.kana_count()]@),
                    )
                }
            } else {
                Seq::empty()
            },
            None => Seq::empty(),
        }
    }

    /// The readings of the kanji that stands at the start of `window`.
    pub open spec fn spec_kanji_part(&self, window: Seq<char>) -> Seq<(nat, nat, Seq<char>)> {
        if self.has_kanji() && window.len() > 0 {
            spec_readings(
                1,
                char_len_utf8(window[0]),
                spec_kanji_romajis(self.table().kanjis@, window[0]),
            )
        } else {
            Seq::empty()
        }
    }

    /// The ways to read the start of `s`, in order: the readings of the
    /// longest kana or word that stands there, within the first
    /// `WORD_MAX_LEN` bytes; then the readings of the first character as a
    /// kanji, where kanji are switched on. Each with the characters and
    /// the bytes of `s` that it reads.
    pub open spec fn spec_romanize(&self, s: Seq<char>) -> Seq<(nat, nat, Seq<char>)> {
        let window = truncate(s, WORD_MAX_LEN as nat);
        self.spec_found(window) + self.spec_kanji_part(window)
    }

    /// Every reading reads at least one character, no more than there are,
    /// and `len` is what these take in bytes.
    pub proof fn lemma_romanize(&self, s: Seq<char>, k: int)
        requires
            self.wf(),
            0 <= k < self.spec_romanize(s).len(),
        ensures
            1 <= self.spec_romanize(s)[k].0 <= s.len(),
            self.spec_romanize(s)[k].1 == utf8_len(s.take(self.spec_romanize(s)[k].0 as int)),
            self.spec_romanize(s)[k].1 <= WORD_MAX_LEN,
    {
        let window = truncate(s, WORD_MAX_LEN as nat);
        lemma_floor_chars(s, WORD_MAX_LEN as nat);
        let chars = self.spec_romanize(s)[k].0 as int;
        if k < self.spec_found(window).len() {
            assert(window.take(chars) == s.take(chars));
            lemma_utf8_len_monotonic(window, chars, window.len() as int);
            assert(window.subrange(0, window.len() as int) == window);
        } else {
            assert(window[0] == s[0]);
            assert(s.take(1) == seq![s[0]]);
            lemma_utf8_len_push(Seq::empty(), s[0]);
            assert(Seq::<char>::empty().push(s[0]) == seq![s[0]]);
        }
    }
}

/// The place of the first entry for `c`.
fn find_kanji(kanjis: &[KanjiReadings], c: char) -> (r: Option<usize>)
    ensures
        match r {
            Some(i) => i < kanjis.len() && spec_kanji_romajis(kanjis@, c) == strings_view(
                kanjis@[i as int].romajis@,
            ),
            None => spec_kanji_romajis(kanjis@, c) == Seq::<Seq<char>>::empty(),
        },
{
    let mut i: usize = 0;
    proof {
        assert(kanjis@.skip(0) == kanjis@);
    }
    while i < kanjis.len()
        invariant
            i <= kanjis.len(),
            spec_kanji_romajis(kanjis@, c) == spec_kanji_romajis(kanjis@.skip(i as int), c),
        decreases kanjis.len() - i,
    {
        proof {
            assert(kanjis@.skip(i as int)[0] == kanjis@[i as int]);
            assert(kanjis@.skip(i as int).skip(1) == kanjis@.skip(i as int + 1));
        }
        if kanjis[i].kanji == c {
            return Some(i);
        }
        i = i + 1;
    }
    None
}

/// The readings of a kanji; none where there is no entry for it.
pub fn kanji_romajis(kanjis: &[KanjiReadings], kanji: char) -> (r: &[String])
    ensures
        strings_view(r@) == spec_kanji_romajis(kanjis@, kanji),
{
    match find_kanji(kanjis, kanji) {
        Some(i) => kanjis[i].romajis.as_slice(),
        None => {
            let none: &[String] = &[];
            proof {
                assert(strings_view(none@) =~= Seq::<Seq<char>>::empty());
            }
            none
        },
    }
}

impl<'a> HepburnRomanizer<'a> {
    /// The match of the automaton in `window`, where it starts at the
    /// start: the bytes that it takes, the value of its pattern and the
    /// characters of that pattern.
    fn leading(&self, window: &str) -> (r: Option<(usize, usize, usize)>)
        requires
            self.wf(),
        ensures
            self.found_is_longest(window@),
            r == spec_leading(self.patterns(), leftmost_longest_match(self.patterns(), window@)),
            match r {
                Some((chars, len, v)) => {
                    &&& v <= u32::MAX
                    &&& occurs_at(self.patterns(), window@, 0, v as int)
                    &&& chars >= 1
                    &&& len == utf8_len(window@.take(chars as int))
                    &&& forall|v2: int| #[trigger]
                        occurs_at(self.patterns(), window@, 0, v2) ==> self.patterns()[v2].len()
                            <= chars
                },
                None => forall|v2: int| !occurs_at(self.patterns(), window@, 0, v2),
            },
    {
        let found = first_leftmost_match(&self.ac, window);
        self.leading_of(window, found)
    }

    /// Of a leftmost-longest match `found` of the kanas and words in
    /// `window`, the one that starts at the start: the characters of its
    /// pattern, the bytes that it takes, and the value of the pattern. It
    /// is the longest kana or word that stands at the start; where the
    /// match starts later, or there is none, none stands there.
    pub fn leading_of(&self, window: &str, found: Option<(usize, usize, u32)>) -> (r: Option<
        (usize, usize, usize),
    >)
        requires
            self.wf(),
            is_leftmost_longest(self.patterns(), window@, found),
        ensures
            r == spec_leading(self.patterns(), found),
            match r {
                Some((chars, len, v)) => {
                    &&& v <= u32::MAX
                    &&& occurs_at(self.patterns(), window@, 0, v as int)
                    &&& chars >= 1
                    &&& len == utf8_len(window@.take(chars as int))
                    &&& forall|v2: int| #[trigger]
                        occurs_at(self.patterns(), window@, 0, v2) ==> self.patterns()[v2].len()
                            <= chars
                },
                None => forall|v2: int| !occurs_at(self.patterns(), window@, 0, v2),
            },
    {
        let ghost patterns = self.patterns();
        match found {
            Some((start, end, value)) => {
                let ghost i = choose|i: int|
                    {
                        &&& #[trigger] occurs_at(patterns, window@, i, value as int)
                        &&& start == utf8_len(window@.take(i))
                        &&& end == utf8_len(window@.take(i + patterns[value as int].len()))
                        &&& forall|i2: int, v2: int| #[trigger]
                            occurs_at(patterns, window@, i2, v2) ==> i <= i2 && (i2 == i
                                ==> patterns[v2].len() <= patterns[value as int].len())
                    };
                proof {
                    lemma_utf8_len_bounds(window@.take(i));
                }
                if start != 0 {
                    proof {
                        assert(window@.take(0) == Seq::<char>::empty());
                        assert(i != 0);
                        assert forall|v2: int| !occurs_at(patterns, window@, 0, v2) by {
                            if occurs_at(patterns, window@, 0, v2) {
                                assert(i <= 0);
                            }
                        }
                    }
                    return None;
                }
                assert(i == 0);
                let v = value as usize;
                let kanas = if self.kana {
                    self.table.kanas.len()
                } else {
                    0
                };
                proof {
                    assert(strings_view(self.words@).len() == self.words@.len());
                    if self.kana {
                        assert(strings_view(self.table.kanas@).len() == self.table.kanas@.len());
                    }
                }
                let chars = if v < kanas {
                    assert(patterns[v as int] == self.table.kanas@[v as int]@);
                    self.table.kanas[v].as_str().unicode_len()
                } else {
                    assert(patterns[v as int] == strings_view(self.words@)[v - kanas]);
                    self.words[v - kanas].as_str().unicode_len()
                };
                assert(spec_patterns(self.table(), self.has_kana(), self.has_word())[v as int].len()
                    != 0);
                Some((chars, end, v))
            },
            None => None,
        }
    }

    /// Whether the match of the automaton in `window`, which `spec_found`
    /// reads, is a leftmost-longest match: where a kana or a word stands
    /// at the start of `window`, the longest that stands there is found.
    pub open spec fn found_is_longest(&self, window: Seq<char>) -> bool {
        is_leftmost_longest(
            self.patterns(),
            window,
            leftmost_longest_match(self.patterns(), window),
        )
    }

    /// The ways to read `s[from..]` from its start.
    pub fn romanize_chars(&self, s: &[char], from: usize) -> (r: Vec<Romanized<'a>>)
        requires
            self.wf(),
            from <= s.len(),
        ensures
            romanized_view(r@) == self.spec_romanize(s@.skip(from as int)),
            self.found_is_longest(truncate(s@.skip(from as int), WORD_MAX_LEN as nat)),
    {
        let ghost rest = s@.skip(from as int);
        let n = floor_chars(s, from, WORD_MAX_LEN);
        let window = string_of(s, from, from + n);
        proof {
            assert(window@ == truncate(rest, WORD_MAX_LEN as nat));
        }
        let mut out: Vec<Romanized<'a>> = Vec::new();
        proof {
            assert(romanized_view(out@) =~= Seq::<(nat, nat, Seq<char>)>::empty());
        }
        match self.leading(window.as_str()) {
            Some((chars, len, v)) => {
                let kanas = if self.kana {
                    self.table.kanas.len()
                } else {
                    0
                };
                proof {
                    assert(strings_view(self.words@).len() == self.words@.len());
                    if self.kana {
                        assert(strings_view(self.table.kanas@).len() == self.table.kanas@.len());
                    }
                }
                if v < kanas {
                    out.push(Romanized { chars, len, romaji: self.table.kana_romajis[v].as_str() });
                    proof {
                        assert(romanized_view(out@) =~= self.spec_found(window@));
                    }
                } else {
                    let romajis = self.table.word_romajis[v - kanas].as_slice();
                    push_readings(&mut out, chars, len, romajis);
                    proof {
                        assert(romanized_view(out@) =~= self.spec_found(window@));
                    }
                }
            },
            None => {
                proof {
                    assert(self.spec_found(window@) =~= Seq::<(nat, nat, Seq<char>)>::empty());
                }
            },
        }
        if self.kanji && n > 0 {
            let c = s[from];
            proof {
                assert(window@[0] == c);
            }
            push_readings(&mut out, 1, len_utf8(c), kanji_romajis(self.table.kanjis.as_slice(), c));
        } else {
            proof {
                assert(romanized_view(out@) + self.spec_kanji_part(window@) =~=
                    romanized_view(out@));
            }
        }
        out
    }

    /// The ways to read `s` from its start, each with the bytes of `s` that
    /// it reads and their romaji.
    pub fn romanize_vec(&self, s: &str) -> (r: Vec<(usize, &'a str)>)
        requires
            self.wf(),
        ensures
            r@.len() == self.spec_romanize(s@).len(),
            forall|k: int|
                0 <= k < r@.len() ==> (#[trigger] r@[k]).0 == self.spec_romanize(s@)[k].1
                    && r@[k].1@
                    == self.spec_romanize(s@)[k].2,
            self.found_is_longest(truncate(s@, WORD_MAX_LEN as nat)),
    {
        let chars = chars_of(s);
        proof {
            assert(chars@.skip(0) == chars@);
        }
        let all = self.romanize_chars(chars.as_slice(), 0);
        let mut out: Vec<(usize, &'a str)> = Vec::new();
        let mut k: usize = 0;
        while k < all.len()
            invariant
                k <= all.len(),
                out@.len() == k,
                romanized_view(all@) == self.spec_romanize(s@),
                forall|j: int|
                    0 <= j < k ==> (#[trigger] out@[j]).0 == self.spec_romanize(s@)[j].1
                        && out@[j].1@
                        == self.spec_romanize(s@)[j].2,
            decreases all.len() - k,
        {
            proof {
                assert(romanized_view(all@)[k as int] == (
                    all@[k as int].chars as nat,
                    all@[k as int].len as nat,
                    all@[k as int].romaji@,
                ));
            }
            out.push((all[k].len, all[k].romaji));
            k = k + 1;
        }
        out
    }

    /// The kana at the start of `s`: the pattern that the automaton finds
    /// first in the first `kana_max_len` bytes of `s`, where it finds it
    /// at the start and it is a kana; with the characters and the bytes
    /// that it takes and its romaji.
    pub open spec fn spec_kana_at(&self, s: Seq<char>) -> Option<(nat, nat, Seq<char>)> {
        let window = truncate(s, self.spec_kana_max_len());
        match leftmost_longest_match(self.patterns(), window) {
            Some((start, end, v)) => if start == 0 && v < self.kana_count() && occurs_at(
                self.patterns(),
                window,
                0,
                v as int,
            ) && self.patterns()[v as int].len() >= 1 && end == utf8_len(
                window.take(self.patterns()[v as int].len() as int),
            ) {
                Some(
                    (
                        self.patterns()[v as int].len(),
                        end as nat,
                        self.table().kana_romajis@[v as int]@,
                    ),
                )
            } else {
                None
            },
            None => None,
        }
    }

    /// What `romanize_kana` yields: the bytes and the romaji of the kana
    /// at the start of `s`.
    pub open spec fn spec_romanize_kana(&self, s: Seq<char>) -> Option<(nat, Seq<char>)> {
        match self.spec_kana_at(s) {
            Some((chars, len, romaji)) => Some((len, romaji)),
            None => None,
        }
    }

    /// The kana at the start of `s[from..]`, with the characters and the
    /// bytes that it takes and its romaji.
    pub fn kana_at(&self, s: &[char], from: usize) -> (r: Option<(usize, usize, &'a str)>)
        requires
            self.wf(),
            from <= s.len(),
        ensures
            match r {
                Some((chars, len, romaji)) => self.spec_kana_at(s@.skip(from as int)) == Some(
                    (chars as nat, len as nat, romaji@),
                ),
                None => self.spec_kana_at(s@.skip(from as int)) is None,
            },
            match r {
                Some((chars, len, romaji)) => {
                    &&& 1 <= chars
                    &&& from + chars <= s.len()
                    &&& len == utf8_len(s@.subrange(from as int, from + chars))
                    &&& exists|v: int|
                        {
                            &&& 0 <= v < self.kana_count()
                            &&& #[trigger] self.patterns()[v] == s@.subrange(
                                from as int,
                                from + chars,
                            )
                            &&& romaji@ == self.table().kana_romajis@[v]@
                        }
                },
                None => true,
            },
            forall|i: int|
                0 <= i < self.kana_count() && s@.skip(from as int) == self.patterns()[i] && (forall|
                    j: int,
                |
                    0 <= j < self.patterns().len() && j != i ==> self.patterns()[j]
                        != #[trigger] self.patterns()[i]) ==> (match r {
                    Some((chars, len, romaji)) => chars == s@.len() - from && romaji@
                        == self.table().kana_romajis@[i]@,
                    None => false,
                }),
    {
        let ghost rest = s@.skip(from as int);
        proof {
            lemma_floor_chars(rest, self.spec_kana_max_len());
        }
        let n = floor_chars(s, from, self.kana_max_len);
        let window = string_of(s, from, from + n);
        proof {
            assert(window@ == truncate(rest, self.spec_kana_max_len()));
        }
        let kanas = if self.kana {
            self.table.kanas.len()
        } else {
            0
        };
        proof {
            if self.kana {
                assert(strings_view(self.table.kanas@).len() == self.table.kanas@.len());
            }
            assert forall|i: int|
                0 <= i < self.kana_count() && rest == self.patterns()[i] implies occurs_at(
                self.patterns(),
                window@,
                0,
                i,
            ) by {
                assert(self.patterns()[i] == strings_view(self.table.kanas@)[i]);
                lemma_max_len(strings_view(self.table.kanas@), i);
                assert(window@ == rest);
                assert(rest.subrange(0, rest.len() as int) == rest);
            }
        }
        match self.leading(window.as_str()) {
            Some((count, len, v)) => {
                if v < kanas {
                    proof {
                        assert(window@.take(count as int) == self.patterns()[v as int]);
                        assert(s@.subrange(from as int, from + count) == window@.take(
                            count as int));
                        assert(self.patterns()[v as int] == strings_view(self.table.kanas@)[
                            v as int]);
                        assert forall|i: int|
                            0 <= i < self.kana_count() && rest == self.patterns()[i] && (forall|
                                j: int,
                            |
                                0 <= j < self.patterns().len() && j != i ==> self.patterns()[j]
                                    != #[trigger] self.patterns()[i]) implies v == i && count
                            == s@.len() - from by {
                            assert(occurs_at(self.patterns(), window@, 0, i));
                            assert(self.patterns()[i].len() <= count);
                            assert(window@ == rest);
                            assert(rest.take(count as int) == rest);
                        }
                    }
                    Some((count, len, self.table.kana_romajis[v].as_str()))
                } else {
                    proof {
                        assert forall|i: int|
                            0 <= i < self.kana_count() && rest == self.patterns()[i] && (forall|
                                j: int,
                            |
                                0 <= j < self.patterns().len() && j != i ==> self.patterns()[j]
                                    != #[trigger] self.patterns()[i]) implies false by {
                            assert(occurs_at(self.patterns(), window@, 0, i));
                            assert(self.patterns()[i].len() <= count);
                            assert(window@ == rest);
                            assert(rest.take(count as int) == rest);
                            assert(self.patterns()[v as int] == self.patterns()[i]);
                        }
                    }
                    None
                }
            },
            None => None,
        }
    }

    /// The kana at the start of `s`, with the bytes that it takes and its
    /// romaji: the longest kana that stands there, unless a word of no
    /// more bytes than the longest kana stands there and is longer.
    ///
    /// A kana that is given once, and is no word, romanizes to its own
    /// romaji.
    pub fn romanize_kana(&self, s: &str) -> (r: Option<(usize, &'a str)>)
        requires
            self.wf(),
        ensures
            match r {
                Some((len, romaji)) => self.spec_romanize_kana(s@) == Some((len as nat, romaji@)),
                None => self.spec_romanize_kana(s@) is None,
            },
            match r {
                Some((len, romaji)) => exists|v: int|
                    {
                        &&& 0 <= v < self.kana_count()
                        &&& #[trigger] crate::unicode::utf8::is_prefix(self.patterns()[v], s@)
                        &&& len == utf8_len(self.patterns()[v])
                        &&& romaji@ == self.table().kana_romajis@[v]@
                    },
                None => true,
            },
            forall|i: int|
                0 <= i < self.kana_count() && s@ == self.patterns()[i] && (forall|j: int|
                    0 <= j < self.patterns().len() && j != i ==> self.patterns()[j]
                        != #[trigger] self.patterns()[i]) ==> (match r {
                    Some((len, romaji)) => len == utf8_len(s@) && romaji@
                        == self.table().kana_romajis@[i]@,
                    None => false,
                }),
    {
        let chars = chars_of(s);
        proof {
            assert(chars@.skip(0) == chars@);
        }
        match self.kana_at(chars.as_slice(), 0) {
            Some((count, len, romaji)) => {
                proof {
                    let v = choose|v: int|
                        {
                            &&& 0 <= v < self.kana_count()
                            &&& #[trigger] self.patterns()[v] == chars@.subrange(0, 0 + count)
                            &&& romaji@ == self.table().kana_romajis@[v]@
                        };
                    assert(crate::unicode::utf8::is_prefix(self.patterns()[v], s@));
                    assert(s@.subrange(0, s@.len() as int) == s@);
                }
                Some((len, romaji))
            },
            None => None,
        }
    }

    /// One step of `romanize_kana_str`: the kana at the start of `s`, or
    /// the ideographic comma, which stands for itself.
    pub open spec fn spec_kana_step(&self, s: Seq<char>) -> Option<(nat, nat, Seq<char>)> {
        match self.spec_kana_at(s) {
            Some(found) => Some(found),
            None => if s.len() > 0 && s[0] == IDEOGRAPHIC_COMMA {
                Some((1, 3, seq![IDEOGRAPHIC_COMMA]))
            } else {
                None
            },
        }
    }

    /// What `romanize_kana_str` reads: the characters and the bytes of `s`
    /// that are read, one kana after the other, and their romaji, one
    /// after the other.
    pub open spec fn spec_romanize_kana_str(&self, s: Seq<char>) -> (nat, nat, Seq<char>)
        decreases s.len(),
    {
        match self.spec_kana_step(s) {
            Some((chars, len, romaji)) => if 0 < chars <= s.len() {
                let rest = self.spec_romanize_kana_str(s.skip(chars as int));
                (chars + rest.0, len + rest.1, romaji + rest.2)
            } else {
                (0, 0, Seq::empty())
            },
            None => (0, 0, Seq::empty()),
        }
    }

    /// The romaji of the kana at the start of `s`, one after the other as
    /// far as there are kana, and the bytes of `s` that they take; `None`
    /// where `s` does not start with a kana. The ideographic comma stands
    /// for itself.
    pub fn romanize_kana_str(&self, s: &str) -> (r: Option<(usize, String)>)
        requires
            self.wf(),
        ensures
            match r {
                Some((len, romaji)) => len > 0 && len == self.spec_romanize_kana_str(s@).1
                    && romaji@ == self.spec_romanize_kana_str(s@).2,
                None => self.spec_romanize_kana_str(s@).1 == 0,
            },
            r is Some ==> utf8_len(s@.take(self.spec_romanize_kana_str(s@).0 as int))
                == self.spec_romanize_kana_str(s@).1
                    && self.spec_romanize_kana_str(s@).0 <= s@.len(),
    {
        let chars = chars_of(s);
        proof {
            lemma_utf8_len_is_encoded_len(s@);
            assert(chars@.skip(0) == chars@);
            assert(chars@.take(0) == Seq::<char>::empty());
        }
        let total = s.as_bytes().len();
        let mut from: usize = 0;
        let mut len: usize = 0;
        let mut buf = String::new();
        let ghost whole = self.spec_romanize_kana_str(s@);
        proof {
            assert(buf@ + whole.2 == whole.2);
        }
        loop
            invariant
                self.wf(),
                chars@ == s@,
                total == utf8_len(s@),
                from <= chars.len(),
                len == utf8_len(chars@.take(from as int)),
                whole == self.spec_romanize_kana_str(s@),
                whole.0 == from + self.spec_romanize_kana_str(chars@.skip(from as int)).0,
                whole.1 == len + self.spec_romanize_kana_str(chars@.skip(from as int)).1,
                whole.2 == buf@ + self.spec_romanize_kana_str(chars@.skip(from as int)).2,
            decreases chars.len() - from,
        {
            let ghost rest = chars@.skip(from as int);
            let step = match self.kana_at(chars.as_slice(), from) {
                Some(found) => Some(found),
                None => {
                    if from < chars.len() && chars[from] == IDEOGRAPHIC_COMMA {
                        proof {
                            assert(rest[0] == chars@[from as int]);
                            assert(chars@.subrange(from as int, from + 1) == seq![
                                IDEOGRAPHIC_COMMA,
                            ]);
                            lemma_utf8_len_push(Seq::empty(), IDEOGRAPHIC_COMMA);
                            assert(Seq::<char>::empty().push(IDEOGRAPHIC_COMMA) == seq![
                                IDEOGRAPHIC_COMMA,
                            ]);
                        }
                        let comma: &'static str = "\u{3001}";
                        proof {
                            reveal_strlit("\u{3001}");
                            assert(comma@ =~= seq![IDEOGRAPHIC_COMMA]);
                        }
                        Some((1usize, 3usize, comma))
                    } else {
                        proof {
                            if from < chars.len() {
                                assert(rest[0] == chars@[from as int]);
                            }
                        }
                        None
                    }
                },
            };
            match step {
                Some((count, bytes, romaji)) => {
                    proof {
                        assert(self.spec_kana_step(rest) == Some(
                            (count as nat, bytes as nat, romaji@),
                        ));
                        assert(rest.skip(count as int) == chars@.skip(from + count));
                        assert(chars@.take(from + count) == chars@.take(from as int)
                            + chars@.subrange(from as int, from + count));
                        crate::unicode::utf8::lemma_utf8_len_concat(
                            chars@.take(from as int),
                            chars@.subrange(from as int, from + count),
                        );
                        crate::unicode::utf8::lemma_utf8_len_monotonic(
                            chars@,
                            from + count,
                            chars@.len() as int,
                        );
                        assert(chars@.subrange(0, chars@.len() as int) == chars@);
                        let next = self.spec_romanize_kana_str(chars@.skip(from + count));
                        assert(buf@ + (romaji@ + next.2) == (buf@ + romaji@) + next.2);
                    }
                    from = from + count;
                    len = len + bytes;
                    buf.append(romaji);
                },
                None => {
                    proof {
                        assert(self.spec_romanize_kana_str(rest) == (
                            0nat,
                            0nat,
                            Seq::<char>::empty(),
                        ));
                        assert(buf@ + Seq::<char>::empty() == buf@);
                    }
                    if len == 0 {
                        return None;
                    } else {
                        return Some((len, buf));
                    }
                },
            }
        }
    }

    /// The romaji of `s`, where all of `s` is kana.
    pub fn romanize_kana_str_all(&self, s: &str) -> (r: Option<String>)
        requires
            self.wf(),
        ensures
            match r {
                Some(romaji) => self.spec_romanize_kana_str(s@).0 == s@.len() && s@.len() > 0
                    && romaji@ == self.spec_romanize_kana_str(s@).2,
                None => self.spec_romanize_kana_str(s@).0 != s@.len() || s@.len() == 0,
            },
    {
        proof {
            lemma_utf8_len_is_encoded_len(s@);
            self.lemma_kana_str(s@);
        }
        match self.romanize_kana_str(s) {
            Some((len, buf)) => {
                if len == s.as_bytes().len() {
                    Some(buf)
                } else {
                    None
                }
            },
            None => None,
        }
    }

    /// What `spec_romanize_kana_str` reads is a start of `s`, and takes
    /// the bytes that it says; it takes all the bytes of `s` only where it
    /// reads all of `s`.
    pub proof fn lemma_kana_str(&self, s: Seq<char>)
        requires
            self.wf(),
        ensures
            self.spec_romanize_kana_str(s).0 <= s.len(),
            self.spec_romanize_kana_str(s).1 == utf8_len(
                s.take(self.spec_romanize_kana_str(s).0 as int),
            ),
            self.spec_romanize_kana_str(s).1 == utf8_len(s) <==> self.spec_romanize_kana_str(s).0
                == s.len(),
        decreases s.len(),
    {
        let whole = self.spec_romanize_kana_str(s);
        assert(s.take(0) == Seq::<char>::empty());
        assert(s.take(s.len() as int) == s);
        match self.spec_kana_step(s) {
            Some((chars, len, romaji)) => {
                if 0 < chars <= s.len() {
                    self.lemma_kana_str(s.skip(chars as int));
                    let rest = self.spec_romanize_kana_str(s.skip(chars as int));
                    let c = chars as int;
                    assert(s.take(c + rest.0) == s.take(c) + s.skip(c).take(rest.0 as int));
                    crate::unicode::utf8::lemma_utf8_len_concat(
                        s.take(c),
                        s.skip(c).take(rest.0 as int),
                    );
                    assert(len == utf8_len(s.take(c))) by {
                        if self.spec_kana_at(s) is Some {
                            let window = truncate(s, self.spec_kana_max_len());
                            lemma_floor_chars(s, self.spec_kana_max_len());
                            assert(window.take(c) == s.take(c));
                        } else {
                            assert(s.take(1) == seq![s[0]]);
                            lemma_utf8_len_push(Seq::empty(), s[0]);
                            assert(Seq::<char>::empty().push(s[0]) == seq![s[0]]);
                        }
                    }
                }
            },
            None => {},
        }
        crate::unicode::utf8::lemma_utf8_len_monotonic(s, whole.0 as int, s.len() as int);
        assert(s.subrange(0, s.len() as int) == s);
        assert(s.subrange(0, whole.0 as int) == s.take(whole.0 as int));
    }
}

impl<'a> HepburnRomanizer<'a> {
    /// Whether one of the readings of the start of `s`, from the `k`-th
    /// on, is followed by something that can be romanized.
    pub open spec fn spec_any_romanizable(
        &self,
        s: Seq<char>,
        readings: Seq<(nat, nat, Seq<char>)>,
        k: int,
    ) -> bool
        decreases s.len(), 0int, readings.len() - k,
    {
        if k < 0 || k >= readings.len() {
            false
        } else if 0 < readings[k].0 <= s.len() && self.spec_is_romanizable(
            s.skip(readings[k].0 as int),
        ) {
            true
        } else {
            self.spec_any_romanizable(s, readings, k + 1)
        }
    }

    /// Whether `s` can be romanized from its start to its end: it is
    /// empty, or one of the readings of its start is followed by
    /// something that can be romanized.
    pub open spec fn spec_is_romanizable(&self, s: Seq<char>) -> bool
        decreases s.len(), 1int, 0int,
    {
        s.len() == 0 || self.spec_any_romanizable(s, self.spec_romanize(s), 0)
    }

    /// Whether one of the readings of the start of `s`, from the `k`-th
    /// on, starts `romaji` and is followed by something that romanizes to
    /// the rest of `romaji`.
    pub open spec fn spec_any_romanizable_to(
        &self,
        s: Seq<char>,
        romaji: Seq<char>,
        readings: Seq<(nat, nat, Seq<char>)>,
        k: int,
    ) -> bool
        decreases s.len(), 0int, readings.len() - k,
    {
        if k < 0 || k >= readings.len() {
            false
        } else if 0 < readings[k].0 <= s.len() && crate::unicode::utf8::is_prefix(
            readings[k].2,
            romaji,
        ) && self.spec_is_romanizable_to(
            s.skip(readings[k].0 as int),
            romaji.skip(readings[k].2.len() as int),
        ) {
            true
        } else {
            self.spec_any_romanizable_to(s, romaji, readings, k + 1)
        }
    }

    /// Whether `s` can be romanized to `romaji`: both are empty, or one of
    /// the readings of the start of `s` starts `romaji`, and what follows
    /// it in `s` can be romanized to what follows it in `romaji`.
    pub open spec fn spec_is_romanizable_to(&self, s: Seq<char>, romaji: Seq<char>) -> bool
        decreases s.len(), 1int, 0int,
    {
        if s.len() == 0 {
            romaji.len() == 0
        } else {
            self.spec_any_romanizable_to(s, romaji, self.spec_romanize(s), 0)
        }
    }

    /// Whether `s[from..]` can be romanized from its start to its end.
    pub fn is_romanizable_from(&self, s: &[char], from: usize) -> (r: bool)
        requires
            self.wf(),
            from <= s.len(),
        ensures
            r == self.spec_is_romanizable(s@.skip(from as int)),
        decreases s.len() - from,
    {
        if from == s.len() {
            return true;
        }
        let ghost rest = s@.skip(from as int);
        let readings = self.romanize_chars(s, from);
        let ghost all = self.spec_romanize(rest);
        let mut k: usize = 0;
        while k < readings.len()
            invariant
                self.wf(),
                from < s.len(),
                rest == s@.skip(from as int),
                all == self.spec_romanize(rest),
                romanized_view(readings@) == all,
                k <= readings.len(),
                self.spec_any_romanizable(rest, all, 0) == self.spec_any_romanizable(
                    rest,
                    all,
                    k as int,
                ),
            decreases readings.len() - k,
        {
            let chars = readings[k].chars;
            proof {
                assert(all.len() == readings@.len());
                assert(all[k as int] == (
                    chars as nat,
                    readings@[k as int].len as nat,
                    readings@[k as int].romaji@,
                ));
                self.lemma_romanize(rest, k as int);
                assert(rest.skip(chars as int) == s@.skip(from + chars));
            }
            if self.is_romanizable_from(s, from + chars) {
                return true;
            }
            k = k + 1;
        }
        proof {
            assert(all.len() == readings@.len());
        }
        false
    }

    /// Whether `s` can be romanized from its start to its end.
    pub fn is_romanizable(&self, s: &str) -> (r: bool)
        requires
            self.wf(),
        ensures
            r == self.spec_is_romanizable(s@),
    {
        let chars = chars_of(s);
        proof {
            assert(chars@.skip(0) == chars@);
        }
        self.is_romanizable_from(chars.as_slice(), 0)
    }

    /// Whether `s[from..]` can be romanized to `romaji[at..]`.
    pub fn is_romanizable_to_from(
        &self,
        s: &[char],
        from: usize,
        romaji: &[char],
        at: usize,
    ) -> (r: bool)
        requires
            self.wf(),
            from <= s.len(),
            at <= romaji.len(),
        ensures
            r == self.spec_is_romanizable_to(s@.skip(from as int), romaji@.skip(at as int)),
        decreases s.len() - from,
    {
        if from == s.len() {
            return at == romaji.len();
        }
        let ghost rest = s@.skip(from as int);
        let ghost target = romaji@.skip(at as int);
        let readings = self.romanize_chars(s, from);
        let ghost all = self.spec_romanize(rest);
        let mut k: usize = 0;
        while k < readings.len()
            invariant
                self.wf(),
                from < s.len(),
                at <= romaji.len(),
                rest == s@.skip(from as int),
                target == romaji@.skip(at as int),
                all == self.spec_romanize(rest),
                romanized_view(readings@) == all,
                k <= readings.len(),
                self.spec_any_romanizable_to(rest, target, all, 0) == self.spec_any_romanizable_to(
                    rest,
                    target,
                    all,
                    k as int,
                ),
            decreases readings.len() - k,
        {
            let chars = readings[k].chars;
            proof {
                assert(all.len() == readings@.len());
                assert(all[k as int] == (
                    chars as nat,
                    readings@[k as int].len as nat,
                    readings@[k as int].romaji@,
                ));
                self.lemma_romanize(rest, k as int);
                assert(rest.skip(chars as int) == s@.skip(from + chars));
            }
            let (relation, n) = crate::unicode::utf8::relate(readings[k].romaji, romaji, at);
            let starts = match relation {
                crate::unicode::utf8::Relation::Exact => true,
                crate::unicode::utf8::Relation::Prefix => true,
                _ => readings[k].romaji.unicode_len() == 0,
            };
            proof {
                let reading = readings@[k as int].romaji@;
                assert(relation == crate::unicode::utf8::spec_relate(reading, target));
                if reading.len() == 0 {
                    assert(target.subrange(0, 0) =~= reading);
                }
                assert(starts == crate::unicode::utf8::is_prefix(reading, target));
                if starts {
                    assert(target.skip(readings@[k as int].romaji@.len() as int) == romaji@.skip(
                        at + readings@[k as int].romaji@.len(),
                    ));
                }
            }
            if starts {
                let consumed = readings[k].romaji.unicode_len();
                if self.is_romanizable_to_from(s, from + chars, romaji, at + consumed) {
                    return true;
                }
            }
            k = k + 1;
        }
        proof {
            assert(all.len() == readings@.len());
        }
        false
    }

    /// Whether `s` can be romanized to `romaji`.
    pub fn is_romanizable_to(&self, s: &str, romaji: &str) -> (r: bool)
        requires
            self.wf(),
        ensures
            r == self.spec_is_romanizable_to(s@, romaji@),
    {
        let chars = chars_of(s);
        let target = chars_of(romaji);
        proof {
            assert(chars@.skip(0) == chars@);
            assert(target@.skip(0) == target@);
        }
        self.is_romanizable_to_from(chars.as_slice(), 0, target.as_slice(), 0)
    }
}

/// Whether `all` holds the bytes and the romaji of each of `readings`.
pub open spec fn readings_of(all: Seq<(usize, &str)>, readings: Seq<(nat, nat, Seq<char>)>) -> bool
    {
    &&& all.len() == readings.len()
    &&& forall|k: int|
        0 <= k < all.len() ==> (#[trigger] all[k]).0 == readings[k].1 && all[k].1@ == readings[k].2
}

impl<'a> HepburnRomanizer<'a> {
    /// Calls `f` on each way to read `s` from its start, with the bytes
    /// that are read and their romaji, in the order of `romanize_vec`,
    /// until it yields a value, and yields that value.
    pub fn romanize_and_try_for_each<T, F: Fn(usize, &'a str) -> Option<T>>(&self, s: &str, f: F) ->
        (r:
        Option<T>)
        requires
            self.wf(),
            forall|len: usize, romaji: &'a str| #[trigger] f.requires((len, romaji)),
        ensures
            exists|all: Seq<(usize, &'a str)>|
                {
                    &&& #[trigger] readings_of(all, self.spec_romanize(s@))
                    &&& match r {
                        Some(v) => exists|k: int|
                            {
                                &&& 0 <= k < all.len()
                                &&& #[trigger] f.ensures(all[k], Some(v))
                                &&& forall|j: int| 0 <= j < k ==> #[trigger] f.ensures(all[j], None)
                            },
                        None => forall|j: int| 0 <= j < all.len() ==> #[trigger] f.ensures(all[j],
                            None),
                    }
                },
    {
        let all = self.romanize_vec(s);
        proof {
            assert(readings_of(all@, self.spec_romanize(s@)));
        }
        let mut k: usize = 0;
        while k < all.len()
            invariant
                k <= all.len(),
                readings_of(all@, self.spec_romanize(s@)),
                forall|len: usize, romaji: &'a str| #[trigger] f.requires((len, romaji)),
                forall|j: int| 0 <= j < k ==> #[trigger] f.ensures(all@[j], None),
            decreases all.len() - k,
        {
            let (len, romaji) = all[k];
            match f(len, romaji) {
                Some(v) => {
                    proof {
                        assert(f.ensures(all@[k as int], Some(v)));
                    }
                    return Some(v);
                },
                None => {},
            }
            k = k + 1;
        }
        None
    }
}

/// Which of kana, kanji and words a romanizer reads. See
/// `HepburnRomanizer::builder`.
pub struct HepburnRomanizerBuilder<'a> {
    pub table: &'a RomajiTable,
    pub kana: bool,
    pub kanji: bool,
    pub word: bool,
}

impl<'a> HepburnRomanizerBuilder<'a> {
    /// Default: `false`.
    pub fn kana(self, kana: bool) -> (r: Self)
        ensures
            r == (HepburnRomanizerBuilder { kana, ..self }),
    {
        HepburnRomanizerBuilder { kana, ..self }
    }

    /// Default: `false`.
    pub fn kanji(self, kanji: bool) -> (r: Self)
        ensures
            r == (HepburnRomanizerBuilder { kanji, ..self }),
    {
        HepburnRomanizerBuilder { kanji, ..self }
    }

    /// Default: `false`.
    pub fn word(self, word: bool) -> (r: Self)
        ensures
            r == (HepburnRomanizerBuilder { word, ..self }),
    {
        HepburnRomanizerBuilder { word, ..self }
    }

    /// `HepburnRomanizer::new` with what was set.
    pub fn build(self) -> (r: Result<HepburnRomanizer<'a>, RomajiError>)
        ensures
            spec_length_mismatch(*self.table, self.kana, self.word) ==> r == Err::<
                HepburnRomanizer<'a>,
                RomajiError,
            >(RomajiError::LengthMismatch),
            !spec_length_mismatch(*self.table, self.kana, self.word) && spec_has_empty_pattern(
                *self.table,
                self.kana,
                self.word,
            ) ==> r == Err::<HepburnRomanizer<'a>, RomajiError>(RomajiError::EmptyPattern),
            !spec_length_mismatch(*self.table, self.kana, self.word) && !spec_has_empty_pattern(
                *self.table,
                self.kana,
                self.word,
            ) && !charwise_builds(spec_patterns(*self.table, self.kana, self.word)) ==> r == Err::<
                HepburnRomanizer<'a>,
                RomajiError,
            >(RomajiError::Automaton),
            r is Ok == (!spec_length_mismatch(*self.table, self.kana, self.word)
                && !spec_has_empty_pattern(*self.table, self.kana, self.word) && charwise_builds(
                spec_patterns(*self.table, self.kana, self.word),
            )),
            r is Ok ==> r->Ok_0.wf() && r->Ok_0.table() == *self.table && r->Ok_0.has_kana()
                == self.kana && r->Ok_0.has_kanji() == self.kanji
                    && r->Ok_0.has_word() == self.word,
    {
        HepburnRomanizer::new(self.table, self.kana, self.kanji, self.word)
    }
}

impl<'a> HepburnRomanizer<'a> {
    /// What a romanizer of `table` is made of; nothing is switched on yet.
    pub fn builder(table: &'a RomajiTable) -> (r: HepburnRomanizerBuilder<'a>)
        ensures
            r == (HepburnRomanizerBuilder { table, kana: false, kanji: false, word: false }),
    {
        HepburnRomanizerBuilder { table, kana: false, kanji: false, word: false }
    }
}

impl<'a> HepburnRomanizer<'a> {
    /// The most bytes that a kana takes; 0 where kana are switched off.
    pub fn kana_max_len(&self) -> (r: usize)
        requires
            self.wf(),
        ensures
            r == self.spec_kana_max_len(),
    {
        self.kana_max_len
    }
}

} // verus!
