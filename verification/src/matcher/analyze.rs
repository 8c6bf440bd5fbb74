//! The analysis of a pattern: which notations it can use, and how short a
//! haystack that it matches can be.
use vstd::prelude::*;
use crate::matcher::pinyin::{PinyinAnalyzeResult, PinyinMatchConfig};
use crate::matcher::romaji::RomajiMatchConfig;
use crate::pinyin::notation::{
    ASCII, ASCII_FIRST_LETTER, lemma_max_len_of_member, lemma_select_members, PinyinNotation,
    UNICODE,
};
use crate::romaji::MIN_LEN;
use crate::unicode::utf8::{
    char_len_utf8, chars_of, lemma_utf8_len_bounds, lemma_utf8_len_concat,
    lemma_utf8_len_is_encoded_len, lemma_utf8_len_push, len_utf8, utf8_len,
};

verus! {

/// How a pattern is analyzed.
#[derive(Clone, Copy, Debug)]
pub struct PatternAnalyzeConfig {
    /// Whether the ways to read the pattern are walked through, for a
    /// better `used_notations` and `min_haystack_len`.
    pub traversal: bool,
}

impl PatternAnalyzeConfig {
    /// The analysis that walks through the ways to read the pattern.
    pub fn standard() -> (r: PatternAnalyzeConfig)
        ensures
            r.traversal,
    {
        PatternAnalyzeConfig { traversal: true }
    }

    /// The analysis that estimates only.
    pub fn new() -> (r: PatternAnalyzeConfig)
        ensures
            !r.traversal,
    {
        PatternAnalyzeConfig { traversal: false }
    }
}

impl Default for PatternAnalyzeConfig {
    /// The analysis that estimates only.
    fn default() -> (r: PatternAnalyzeConfig)
        ensures
            !r.traversal,
    {
        PatternAnalyzeConfig { traversal: false }
    }
}

/// The number of steps after which the walk is given up for the estimate.
pub const TRAVERSAL_LIMIT: usize = 100;

/// `bytes / unit`, rounded up.
pub open spec fn spec_div_ceil(bytes: nat, unit: nat) -> nat {
    if bytes == 0 || unit == 0 {
        0
    } else {
        ((bytes - 1) / (unit as int) + 1) as nat
    }
}

/// The most bytes of a pattern that one character of a haystack can
/// stand for: the `max_len` of the notations, and 1 without notations.
pub open spec fn spec_unit(notations: Option<PinyinNotation>) -> nat {
    match notations {
        Some(n) => match n.spec_max_len() {
            Some(m) => m as nat,
            None => 1,
        },
        None => 1,
    }
}

/// The estimate of the fewest bytes of a haystack that a pattern of
/// `bytes` bytes can match: `bytes` divided by the most bytes that one
/// character can stand for, rounded up; with romaji, no more than the
/// bytes of the shortest kanji.
pub open spec fn spec_estimate(bytes: nat, notations: Option<PinyinNotation>, romaji: bool) -> nat {
    let by_pinyin = spec_div_ceil(bytes, spec_unit(notations));
    if romaji && MIN_LEN < by_pinyin {
        MIN_LEN as nat
    } else {
        by_pinyin
    }
}

/// The estimate for a pattern of `len` bytes. See `spec_estimate`.
pub fn estimate_len(len: usize, notations: Option<PinyinNotation>, romaji: bool) -> (r: usize)
    ensures
        r == spec_estimate(len as nat, notations, romaji),
        r <= len,
{
    let unit = match notations {
        Some(n) => match n.max_len() {
            Some(m) => m,
            None => 1,
        },
        None => 1,
    };
    let by_pinyin = div_ceil(len, unit);
    if romaji && MIN_LEN < by_pinyin {
        MIN_LEN
    } else {
        by_pinyin
    }
}

/// `a + b`, or the largest number where that is too large.
pub open spec fn spec_add_capped(a: usize, b: usize) -> usize {
    if a + b > usize::MAX {
        usize::MAX
    } else {
        (a + b) as usize
    }
}

fn add_capped(a: usize, b: usize) -> (r: usize)
    ensures
        r == spec_add_capped(a, b),
{
    if a > usize::MAX - b {
        usize::MAX
    } else {
        a + b
    }
}

fn div_ceil(bytes: usize, unit: usize) -> (r: usize)
    requires
        unit > 0,
    ensures
        r == spec_div_ceil(bytes as nat, unit as nat),
        r <= bytes,
{
    if bytes == 0 {
        0
    } else {
        proof {
            assert((bytes - 1) / (unit as int) <= bytes - 1) by (nonlinear_arith)
                requires
                    bytes >= 1,
                    unit >= 1,
            ;
        }
        (bytes - 1) / unit + 1
    }
}

/// A number whose multiple by `unit` reaches `bytes` is no less than
/// `bytes / unit` rounded up.
pub proof fn lemma_div_ceil_least(n: nat, bytes: nat, unit: nat)
    requires
        unit > 0,
        n * unit >= bytes,
    ensures
        n >= spec_div_ceil(bytes, unit),
{
    if bytes > 0 {
        assert(n >= (bytes - 1) / (unit as int) + 1) by (nonlinear_arith)
            requires
                unit > 0,
                bytes > 0,
                n * unit >= bytes,
        ;
    }
}

/// What a walk through the ways to read a pattern is given.
pub struct WalkSetting<'a> {
    pub pattern: Seq<char>,
    pub pinyin: Option<PinyinMatchConfig<'a>>,
    /// Whether a partial pattern is allowed for pinyin.
    pub partial: bool,
}

/// What a walk knows at a moment: the steps that it has taken, the
/// notations that it has found used, and the fewest characters and bytes
/// of a haystack that it has found to do.
pub struct WalkState {
    pub count: usize,
    pub used: PinyinNotation,
    pub min_chars: usize,
    pub min_len: usize,
}

/// The state at the end of the pattern: a haystack of `depth` characters
/// and `min_len` bytes does.
pub open spec fn spec_leaf(st: WalkState, depth: usize, min_len: usize) -> WalkState {
    WalkState {
        count: st.count,
        used: st.used,
        min_chars: if depth < st.min_chars {
            depth
        } else {
            st.min_chars
        },
        min_len: if min_len < st.min_len {
            min_len
        } else {
            st.min_len
        },
    }
}

/// Whether one reading of the pattern from `pi` on is not followed up:
/// a full pinyin of one letter where the first letters are asked for too,
/// which stand for it.
pub open spec fn spec_skipped(
    setting: WalkSetting<'_>,
    notation: PinyinNotation,
    pi: int,
    matched_chars: int,
) -> bool {
    &&& matched_chars == 1
    &&& char_len_utf8(setting.pattern[pi]) == 1
    &&& notation.0 == ASCII
    &&& setting.pinyin->0.notations.spec_contains(PinyinNotation(ASCII_FIRST_LETTER))
}

/// Whether one reading of the pattern from `pi` on reads one character
/// of the pattern: one byte, or one character where the Unicode notation
/// is asked for.
pub open spec fn spec_single(setting: WalkSetting<'_>, pi: int, matched_chars: int) -> bool {
    matched_chars == 1 && (char_len_utf8(setting.pattern[pi]) == 1
        || setting.pinyin->0.notations.spec_contains(PinyinNotation(UNICODE)))
}

/// The bytes of a haystack that one reading stands for at least: three,
/// those of the shortest character that has a pinyin; for a reading of
/// one character of the pattern, no more than that character takes.
pub open spec fn spec_cost(setting: WalkSetting<'_>, pi: int, matched_chars: int) -> usize {
    if spec_single(setting, pi, matched_chars) && char_len_utf8(setting.pattern[pi]) < 3 {
        char_len_utf8(setting.pattern[pi]) as usize
    } else {
        3
    }
}

/// The readings `items` of the pattern from `pi` on in `notation`, from
/// the `k`-th on: each is followed up by a walk through what is left of
/// the pattern after it, until the walk has taken too many steps. With
/// the state, whether one of the readings read one character of the
/// pattern.
pub open spec fn spec_walk_matches(
    setting: WalkSetting<'_>,
    st: WalkState,
    pi: int,
    depth: usize,
    min_len: usize,
    notation: PinyinNotation,
    items: Seq<(Seq<char>, bool)>,
    k: int,
    any: bool,
) -> (WalkState, bool)
    decreases setting.pattern.len() - pi, 1int, items.len() - k,
{
    if k < 0 || k >= items.len() || setting.pinyin is None || pi < 0 || pi
        >= setting.pattern.len() {
        (st, any)
    } else {
        let matched_chars = if items[k].1 {
            setting.pattern.len() - pi
        } else {
            items[k].0.len() as int
        };
        if spec_skipped(setting, notation, pi, matched_chars) || matched_chars < 1 || matched_chars
            > setting.pattern.len() - pi {
            spec_walk_matches(setting, st, pi, depth, min_len, notation, items, k + 1, any)
        } else {
            let single = spec_single(setting, pi, matched_chars);
            let next = spec_walk(
                setting,
                WalkState {
                    count: st.count,
                    used: st.used.spec_union(notation),
                    min_chars: st.min_chars,
                    min_len: st.min_len,
                },
                pi + matched_chars,
                spec_add_capped(depth, 1),
                spec_add_capped(min_len, spec_cost(setting, pi, matched_chars)),
            );
            if next.count > TRAVERSAL_LIMIT {
                (next, any || single)
            } else {
                spec_walk_matches(
                    setting,
                    next,
                    pi,
                    depth,
                    min_len,
                    notation,
                    items,
                    k + 1,
                    any || single,
                )
            }
        }
    }
}

/// The notations from the `i`-th on: the readings of the pattern from `pi`
/// on in each, until the walk has taken too many steps.
pub open spec fn spec_walk_notations(
    setting: WalkSetting<'_>,
    st: WalkState,
    pi: int,
    depth: usize,
    min_len: usize,
    notations: Seq<PinyinNotation>,
    i: int,
    any: bool,
) -> (WalkState, bool)
    decreases setting.pattern.len() - pi, 2int, notations.len() - i,
{
    if i < 0 || i >= notations.len() || setting.pinyin is None {
        (st, any)
    } else {
        let items = setting.pinyin->0.data.spec_match_pinyin_partial(
            notations[i],
            setting.pattern.skip(pi),
            setting.partial,
        );
        let after = spec_walk_matches(
            setting,
            st,
            pi,
            depth,
            min_len,
            notations[i],
            items,
            0,
            any,
        );
        if after.0.count > TRAVERSAL_LIMIT {
            after
        } else {
            spec_walk_notations(setting, after.0, pi, depth, min_len, notations, i + 1, after.1)
        }
    }
}

/// The walk through the ways to read the pattern from its `pi`-th
/// character on, after `depth` characters of a haystack that take
/// `min_len` bytes at least.
/// - Each call is one step; after `TRAVERSAL_LIMIT` steps nothing more is
///   done.
/// - At the end of the pattern, `depth` and `min_len` are taken down if
///   they are less than what was known.
/// - Otherwise every pinyin, in every notation that is asked for, with
///   which what is left of the pattern starts is followed up, and, where
///   a partial pattern is allowed, every pinyin that starts with all that
///   is left.
/// - Unless one of these read one character of the pattern, the next
///   character of the pattern is taken as itself.
pub open spec fn spec_walk(
    setting: WalkSetting<'_>,
    st: WalkState,
    pi: int,
    depth: usize,
    min_len: usize,
) -> WalkState
    decreases setting.pattern.len() - pi, 3int, 0int,
{
    if st.count > TRAVERSAL_LIMIT {
        st
    } else {
        let counted = WalkState {
            count: (st.count + 1) as usize,
            used: st.used,
            min_chars: st.min_chars,
            min_len: st.min_len,
        };
        if counted.count > TRAVERSAL_LIMIT {
            counted
        } else if pi < 0 || pi >= setting.pattern.len() {
            spec_leaf(counted, depth, min_len)
        } else {
            let after = match setting.pinyin {
                Some(p) => spec_walk_notations(
                    setting,
                    counted,
                    pi,
                    depth,
                    min_len,
                    p.notations.spec_iter(),
                    0,
                    false,
                ),
                None => (counted, false),
            };
            if after.0.count > TRAVERSAL_LIMIT || after.1 {
                after.0
            } else {
                spec_walk(
                    setting,
                    after.0,
                    pi + 1,
                    spec_add_capped(depth, 1),
                    spec_add_capped(min_len, char_len_utf8(setting.pattern[pi]) as usize),
                )
            }
        }
    }
}

/// The analysis of one pattern.
pub struct PatternAnalyzer<'a> {
    pattern: Vec<char>,
    pattern_bytes: usize,
    is_pattern_partial: bool,
    pinyin: Option<PinyinMatchConfig<'a>>,
    pinyin_result: PinyinAnalyzeResult,
    romaji: Option<RomajiMatchConfig<'a>>,
    traversal_count: usize,
    min_haystack_chars: usize,
    min_haystack_len: usize,
}

impl<'a> PatternAnalyzer<'a> {
    /// The pattern that is analyzed.
    pub closed spec fn spec_pattern(&self) -> Seq<char> {
        self.pattern@
    }

    /// Whether the end of the pattern may match the start of a reading.
    pub closed spec fn spec_is_pattern_partial(&self) -> bool {
        self.is_pattern_partial
    }

    /// How the pattern is matched as pinyin, if it is.
    pub closed spec fn spec_pinyin(&self) -> Option<PinyinMatchConfig<'a>> {
        self.pinyin
    }

    /// Whether the pattern is matched as romaji.
    pub closed spec fn has_romaji(&self) -> bool {
        self.romaji is Some
    }

    /// What the analysis says of pinyin.
    pub closed spec fn spec_result(&self) -> PinyinAnalyzeResult {
        self.pinyin_result
    }

    /// The steps that the last walk took.
    pub closed spec fn spec_traversal_count(&self) -> usize {
        self.traversal_count
    }

    /// The fewest characters of a haystack that the pattern can match, as far
    /// as the analysis knows.
    pub closed spec fn spec_min_haystack_chars(&self) -> usize {
        self.min_haystack_chars
    }

    /// The fewest bytes of a haystack that the pattern can match, as far as
    /// the analysis knows.
    pub closed spec fn spec_min_haystack_len(&self) -> usize {
        self.min_haystack_len
    }

    /// What a walk through the ways to read the pattern is given.
    pub closed spec fn setting(&self) -> WalkSetting<'a> {
        WalkSetting {
            pattern: self.pattern@,
            pinyin: self.pinyin,
            partial: self.pinyin_result.partial_pattern,
        }
    }

    /// What the analysis knows.
    pub closed spec fn state(&self) -> WalkState {
        WalkState {
            count: self.traversal_count,
            used: self.pinyin_result.used_notations,
            min_chars: self.min_haystack_chars,
            min_len: self.min_haystack_len,
        }
    }

    /// The notations that the configuration asks for, if there is one.
    pub open spec fn spec_notations(&self) -> Option<PinyinNotation> {
        match self.spec_pinyin() {
            Some(p) => Some(p.notations),
            None => None,
        }
    }

    /// The pattern fits in memory, and the pinyin configuration is well
    /// formed.
    pub closed spec fn wf(&self) -> bool {
        &&& self.pattern_bytes == utf8_len(self.pattern@)
        &&& self.pinyin is Some ==> self.pinyin->0.wf()
    }

    /// The analyzer of `pattern`, which is expected in lower case.
    pub fn new(
        pattern: &str,
        is_pattern_partial: bool,
        pinyin: Option<PinyinMatchConfig<'a>>,
        romaji: Option<RomajiMatchConfig<'a>>,
    ) -> (r: PatternAnalyzer<'a>)
        requires
            pinyin is Some ==> pinyin->0.wf(),
        ensures
            r.wf(),
            r.spec_pattern() == pattern@,
            r.spec_is_pattern_partial() == is_pattern_partial,
            r.spec_pinyin() == pinyin,
            r.has_romaji() == romaji is Some,
            r.spec_result() == (PinyinAnalyzeResult {
                used_notations: PinyinNotation(0),
                partial_pattern: false,
            }),
            r.spec_min_haystack_len() == 0,
            r.spec_min_haystack_chars() == 0,
    {
        proof {
            lemma_utf8_len_is_encoded_len(pattern@);
        }
        PatternAnalyzer {
            pattern: chars_of(pattern),
            pattern_bytes: pattern.as_bytes().len(),
            is_pattern_partial,
            pinyin,
            pinyin_result: PinyinAnalyzeResult::new(),
            romaji,
            traversal_count: 0,
            min_haystack_chars: 0,
            min_haystack_len: 0,
        }
    }

    /// What the analysis says of pinyin.
    pub fn pinyin(&self) -> (r: &PinyinAnalyzeResult)
        ensures
            *r == self.spec_result(),
    {
        &self.pinyin_result
    }

    /// The notations that the analysis found used.
    pub fn used_notations(&self) -> (r: PinyinNotation)
        ensures
            r == self.spec_result().used_notations,
    {
        self.pinyin_result.used_notations
    }

    /// The fewest characters of a haystack that the pattern can match, as
    /// far as the analysis knows.
    pub fn min_haystack_chars(&self) -> (r: usize)
        ensures
            r == self.spec_min_haystack_chars(),
    {
        self.min_haystack_chars
    }

    /// The fewest bytes of a haystack that the pattern can match, as far
    /// as the analysis knows.
    pub fn min_haystack_len(&self) -> (r: usize)
        ensures
            r == self.spec_min_haystack_len(),
    {
        self.min_haystack_len
    }

    fn set_min_haystack_chars(&mut self, chars: usize)
        ensures
            *final(self) == (PatternAnalyzer {
                min_haystack_chars: if chars < old(self).min_haystack_chars {
                    chars
                } else {
                    old(self).min_haystack_chars
                },
                ..*old(self)
            }),
    {
        if chars < self.min_haystack_chars {
            self.min_haystack_chars = chars;
        }
    }

    fn set_min_haystack_len(&mut self, len: usize)
        ensures
            *final(self) == (PatternAnalyzer {
                min_haystack_len: if len < old(self).min_haystack_len {
                    len
                } else {
                    old(self).min_haystack_len
                },
                ..*old(self)
            }),
    {
        if len < self.min_haystack_len {
            self.min_haystack_len = len;
        }
    }

    /// Whether only what the walk may change differs between two states.
    spec fn same_setting(&self, other: &PatternAnalyzer<'a>) -> bool {
        &&& self.pattern == other.pattern
        &&& self.pattern_bytes == other.pattern_bytes
        &&& self.is_pattern_partial == other.is_pattern_partial
        &&& self.pinyin == other.pinyin
        &&& self.romaji == other.romaji
        &&& self.pinyin_result.partial_pattern == other.pinyin_result.partial_pattern
    }

    /// What holds of the walk's state at every moment: the used notations
    /// are among those asked for, and, without romaji, the fewest bytes
    /// found so far, times the most bytes of the pattern that one
    /// character can stand for, reach the bytes of the pattern.
    spec fn walk_state(&self) -> bool {
        &&& self.wf()
        &&& match self.pinyin {
            Some(p) => p.notations.spec_contains(self.pinyin_result.used_notations),
            None => self.pinyin_result.used_notations == PinyinNotation(0),
        }
        &&& self.romaji is None ==> self.min_haystack_len * spec_unit(self.spec_notations())
            >= utf8_len(self.pattern@)
    }

    /// The bytes of the pattern from its `pi`-th character on.
    spec fn remaining(&self, pi: int) -> nat {
        utf8_len(self.pattern@.skip(pi))
    }

    /// The bytes of the pattern before its `pi`-th character.
    spec fn consumed(&self, pi: int) -> nat {
        utf8_len(self.pattern@.take(pi))
    }

    proof fn lemma_consumed(&self, pi: int, n: int)
        requires
            0 <= pi,
            0 <= n,
            pi + n <= self.pattern@.len(),
        ensures
            self.consumed(pi + n) == self.consumed(pi) + utf8_len(self.pattern@.subrange(pi,
                pi + n)),
            self.remaining(pi) == utf8_len(self.pattern@.subrange(pi, pi + n)) + self.remaining(
                pi + n,
            ),
            self.consumed(pi) + self.remaining(pi) == utf8_len(self.pattern@),
    {
        let p = self.pattern@;
        assert(p.take(pi + n) == p.take(pi) + p.subrange(pi, pi + n));
        lemma_utf8_len_concat(p.take(pi), p.subrange(pi, pi + n));
        assert(p.skip(pi) == p.subrange(pi, pi + n) + p.skip(pi + n));
        lemma_utf8_len_concat(p.subrange(pi, pi + n), p.skip(pi + n));
        assert(p == p.take(pi) + p.skip(pi));
        lemma_utf8_len_concat(p.take(pi), p.skip(pi));
    }

    /// One step of the walk: the pattern from its `pi`-th character on,
    /// after `depth` characters of a haystack that take `min_len` bytes
    /// at least.
    #[verifier::rlimit(60)]
    fn sub_analyze(&mut self, pi: usize, depth: usize, min_len: usize)
        requires
            old(self).walk_state(),
            pi <= old(self).pattern@.len(),
            depth <= pi,
            old(self).traversal_count <= TRAVERSAL_LIMIT,
            min_len * spec_unit(old(self).spec_notations()) >= old(self).consumed(pi as int),
        ensures
            final(self).walk_state(),
            final(self).same_setting(old(self)),
            final(self).state() == spec_walk(
                old(self).setting(),
                old(self).state(),
                pi as int,
                depth,
                min_len,
            ),
            final(self).min_haystack_len <= old(self).min_haystack_len,
            final(self).traversal_count > old(self).traversal_count,
            final(self).traversal_count <= TRAVERSAL_LIMIT
                ==> final(self).min_haystack_len <= min_len
                + old(self).remaining(pi as int),
        decreases old(self).pattern@.len() - pi,
    {
        let ghost setting = self.setting();
        let ghost st0 = self.state();
        self.traversal_count = self.traversal_count + 1;
        let ghost counted = self.state();
        if self.traversal_count > TRAVERSAL_LIMIT {
            return ;
        }
        let ghost unit = spec_unit(self.spec_notations());
        let ghost total = utf8_len(self.pattern@);
        if pi == self.pattern.len() {
            proof {
                assert(self.pattern@.take(pi as int) == self.pattern@);
            }
            self.set_min_haystack_chars(depth);
            self.set_min_haystack_len(min_len);
            return ;
        }
        let c = self.pattern[pi];
        let c_len = len_utf8(c);
        proof {
            self.lemma_consumed(pi as int, 1);
            assert(self.pattern@.subrange(pi as int, pi + 1) == seq![c]);
            lemma_utf8_len_push(Seq::empty(), c);
            assert(Seq::<char>::empty().push(c) == seq![c]);
        }
        let mut any_single = false;
        let ghost whole = spec_walk(setting, st0, pi as int, depth, min_len);
        match self.pinyin {
            Some(pinyin) => {
                let notations = pinyin.notations.iter();
                proof {
                    lemma_select_members(pinyin.notations, PinyinNotation::declared());
                }
                let has_first_letter = pinyin.notations.contains(PinyinNotation(
                    ASCII_FIRST_LETTER));
                let has_unicode = pinyin.notations.contains(PinyinNotation(UNICODE));
                let ghost list = notations@;
                let ghost by_notations = spec_walk_notations(
                    setting,
                    counted,
                    pi as int,
                    depth,
                    min_len,
                    list,
                    0,
                    false,
                );
                let mut i: usize = 0;
                while i < notations.len()
                    invariant
                        self.walk_state(),
                        self.same_setting(old(self)),
                        self.setting() == setting,
                        self.pinyin == Some(pinyin),
                        unit == spec_unit(self.spec_notations()),
                        total == utf8_len(self.pattern@),
                        self.min_haystack_len <= old(self).min_haystack_len,
                        self.traversal_count > old(self).traversal_count,
                        self.traversal_count <= TRAVERSAL_LIMIT,
                        pi < self.pattern@.len(),
                        depth <= pi,
                        c == self.pattern@[pi as int],
                        c_len == utf8_len(self.pattern@.subrange(pi as int, pi + 1)),
                        c_len == char_len_utf8(c),
                        1 <= c_len <= 4,
                        has_first_letter == pinyin.notations.spec_contains(
                            PinyinNotation(ASCII_FIRST_LETTER),
                        ),
                        has_unicode == pinyin.notations.spec_contains(PinyinNotation(UNICODE)),
                        min_len * unit >= self.consumed(pi as int),
                        any_single ==> self.min_haystack_len <= min_len + self.remaining(pi as int),
                        i <= notations.len(),
                        notations@ == list,
                        list == pinyin.notations.spec_iter(),
                        whole == spec_walk(
                            old(self).setting(),
                            old(self).state(),
                            pi as int,
                            depth,
                            min_len,
                        ),
                        whole == (if by_notations.0.count > TRAVERSAL_LIMIT || by_notations.1 {
                            by_notations.0
                        } else {
                            spec_walk(
                                setting,
                                by_notations.0,
                                pi + 1,
                                spec_add_capped(depth, 1),
                                spec_add_capped(min_len, c_len),
                            )
                        }),
                        by_notations == spec_walk_notations(
                            setting,
                            self.state(),
                            pi as int,
                            depth,
                            min_len,
                            list,
                            i as int,
                            any_single,
                        ),
                        forall|j: int|
                            0 <= j < notations@.len() ==> pinyin.notations.spec_contains(
                                #[trigger] notations@[j],
                            ) && PinyinNotation::declared().contains(notations@[j]),
                    decreases notations.len() - i,
                {
                    let notation = notations[i];
                    proof {
                        let d = choose|d: int|
                            0 <= d < PinyinNotation::declared().len()
                                && PinyinNotation::declared()[d]
                                == notation;
                        assert(notation.is_single());
                        pinyin.lemma_has_notation(notation);
                        lemma_max_len_of_member(pinyin.notations, notation);
                    }
                    let partial_allowed = self.pinyin_result.partial_pattern;
                    let matches = pinyin.data.match_pinyin_partial_in(
                        notation,
                        self.pattern.as_slice(),
                        pi,
                        partial_allowed,
                    );
                    let ghost rest = self.pattern@.skip(pi as int);
                    let ghost items = pinyin.data.spec_match_pinyin_partial(
                        notation,
                        rest,
                        partial_allowed,
                    );
                    let ghost entry = self.state();
                    let ghost any_entry = any_single;
                    let ghost by_matches = spec_walk_matches(
                        setting,
                        entry,
                        pi as int,
                        depth,
                        min_len,
                        notation,
                        items,
                        0,
                        any_entry,
                    );
                    proof {
                        assert(items =~= Seq::new(
                            matches@.len(),
                            |j: int| (matches@[j].0@, matches@[j].1),
                        ));
                        assert(by_notations == (if by_matches.0.count > TRAVERSAL_LIMIT {
                            by_matches
                        } else {
                            spec_walk_notations(
                                setting,
                                by_matches.0,
                                pi as int,
                                depth,
                                min_len,
                                list,
                                i + 1,
                                by_matches.1,
                            )
                        }));
                    }
                    let skip_single = notation.0 == ASCII && has_first_letter;
                    let mut k: usize = 0;
                    while k < matches.len()
                        invariant
                            self.walk_state(),
                            self.same_setting(old(self)),
                            self.setting() == setting,
                            self.pinyin == Some(pinyin),
                            pinyin.wf(),
                            notation.is_single(),
                            pinyin.notations.spec_contains(notation),
                            notation.spec_max_len() is Some,
                            notation.spec_max_len()->0 <= unit,
                            unit == spec_unit(self.spec_notations()),
                            total == utf8_len(self.pattern@),
                            self.min_haystack_len <= old(self).min_haystack_len,
                            self.traversal_count > old(self).traversal_count,
                            self.traversal_count <= TRAVERSAL_LIMIT,
                            pi < self.pattern@.len(),
                            depth <= pi,
                            c == self.pattern@[pi as int],
                            c_len == utf8_len(self.pattern@.subrange(pi as int, pi + 1)),
                            c_len == char_len_utf8(c),
                            1 <= c_len <= 4,
                            has_first_letter == pinyin.notations.spec_contains(
                                PinyinNotation(ASCII_FIRST_LETTER),
                            ),
                            has_unicode == pinyin.notations.spec_contains(PinyinNotation(UNICODE)),
                            skip_single == (notation.0 == ASCII && has_first_letter),
                            partial_allowed == setting.partial,
                            min_len * unit >= self.consumed(pi as int),
                            any_single ==> self.min_haystack_len <= min_len + self.remaining(
                                pi as int,
                            ),
                            rest == self.pattern@.skip(pi as int),
                            items == pinyin.data.spec_match_pinyin_partial(
                                notation,
                                rest,
                                partial_allowed,
                            ),
                            matches@.len() == items.len(),
                            forall|j: int|
                                0 <= j < matches@.len() ==> ((#[trigger] matches@[j]).0@,
                                    matches@[j].1)
                                    == items[j],
                            k <= matches.len(),
                            whole == spec_walk(
                                old(self).setting(),
                                old(self).state(),
                                pi as int,
                                depth,
                                min_len,
                            ),
                            whole == (if by_notations.0.count > TRAVERSAL_LIMIT || by_notations.1 {
                                by_notations.0
                            } else {
                                spec_walk(
                                    setting,
                                    by_notations.0,
                                    pi + 1,
                                    spec_add_capped(depth, 1),
                                    spec_add_capped(min_len, c_len),
                                )
                            }),
                            by_notations == (if by_matches.0.count > TRAVERSAL_LIMIT {
                                by_matches
                            } else {
                                spec_walk_notations(
                                    setting,
                                    by_matches.0,
                                    pi as int,
                                    depth,
                                    min_len,
                                    list,
                                    i + 1,
                                    by_matches.1,
                                )
                            }),
                            by_matches == spec_walk_matches(
                                setting,
                                self.state(),
                                pi as int,
                                depth,
                                min_len,
                                notation,
                                items,
                                k as int,
                                any_single,
                            ),
                        decreases matches.len() - k,
                    {
                        let (py, partial) = matches[k];
                        proof {
                            pinyin.data.lemma_match_item(notation, rest, partial_allowed, k as int);
                            assert(items[k as int] == (py@, partial));
                        }
                        let matched_chars = if partial {
                            self.pattern.len() - pi
                        } else {
                            py.unicode_len()
                        };
                        proof {
                            assert(rest.len() == self.pattern@.len() - pi);
                            assert(1 <= matched_chars <= rest.len());
                            self.lemma_consumed(pi as int, matched_chars as int);
                            let matched = self.pattern@.subrange(pi as int, pi + matched_chars);
                            assert(matched == rest.subrange(0, matched_chars as int));
                            if partial {
                                assert(matched == rest);
                                assert(py@.subrange(0, rest.len() as int) == rest);
                                crate::unicode::utf8::lemma_utf8_len_monotonic(
                                    py@,
                                    rest.len() as int,
                                    py@.len() as int,
                                );
                                assert(py@.subrange(0, py@.len() as int) == py@);
                            } else {
                                assert(matched == py@);
                            }
                            assert(utf8_len(matched) <= unit);
                            self.lemma_consumed(pi as int, 1);
                        }
                        let one_char = matched_chars == 1;
                        let single = (one_char && c_len == 1) || (has_unicode && one_char);
                        proof {
                            assert(single == spec_single(setting, pi as int, matched_chars as int));
                            assert((one_char && c_len == 1 && skip_single) == spec_skipped(
                                setting,
                                notation,
                                pi as int,
                                matched_chars as int,
                            ));
                        }
                        if !(one_char && c_len == 1 && skip_single) {
                            let add = if single {
                                if c_len < 3 {
                                    c_len
                                } else {
                                    3
                                }
                            } else {
                                3
                            };
                            let next_min = add_capped(min_len, add);
                            let used = self.pinyin_result.used_notations;
                            self.pinyin_result.used_notations = used.union(notation);
                            proof {
                                assert(add == spec_cost(setting, pi as int, matched_chars as int));
                                assert(forall|a: u32, u: u32, n: u32|
                                    a & u == u && a & n == n
                                        ==> #[trigger] (a & (u | n)) == (u | n)) by (bit_vector);
                                lemma_utf8_len_bounds(self.pattern@.take(pi + matched_chars));
                                assert(next_min * unit >= self.consumed(pi + matched_chars))
                                    by (nonlinear_arith)
                                    requires
                                        min_len * unit >= self.consumed(pi as int),
                                        self.consumed(pi + matched_chars) <= self.consumed(
                                            pi as int)
                                            + unit,
                                        add >= 1,
                                        unit >= 1,
                                        next_min == min_len + add || (next_min == usize::MAX
                                            && self.consumed(pi + matched_chars) <= usize::MAX),
                                ;
                            }
                            self.sub_analyze(pi + matched_chars, depth + 1, next_min);
                            proof {
                                if single && self.traversal_count <= TRAVERSAL_LIMIT {
                                    assert(matched_chars == 1);
                                    assert(next_min <= min_len + c_len);
                                }
                            }
                            if single {
                                any_single = true;
                            }
                            if self.traversal_count > TRAVERSAL_LIMIT {
                                proof {
                                    assert(by_matches.0 == self.state());
                                    assert(whole == self.state());
                                }
                                return ;
                            }
                        }
                        k = k + 1;
                    }
                    i = i + 1;
                }
            },
            None => {},
        }
        if !any_single {
            let next_min = add_capped(min_len, c_len);
            proof {
                lemma_utf8_len_bounds(self.pattern@.take(pi + 1));
                assert(next_min * unit >= self.consumed(pi + 1)) by (nonlinear_arith)
                    requires
                        min_len * unit >= self.consumed(pi as int),
                        self.consumed(pi + 1) == self.consumed(pi as int) + c_len,
                        c_len >= 1,
                        unit >= 1,
                        next_min == min_len + c_len || (next_min == usize::MAX && self.consumed(
                            pi + 1,
                        ) <= usize::MAX),
                ;
            }
            self.sub_analyze(pi + 1, depth + 1, next_min);
        }
    }
}

impl<'a> PatternAnalyzer<'a> {
    /// The fewest characters that the estimate gives.
    pub open spec fn spec_estimate_chars(&self) -> nat {
        let by_pinyin = spec_div_ceil(
            utf8_len(self.spec_pattern()),
            spec_unit(self.spec_notations()),
        );
        if self.has_romaji() && 1 < by_pinyin {
            1
        } else {
            by_pinyin
        }
    }

    /// The fewest bytes that the estimate gives.
    pub open spec fn spec_estimate_len(&self) -> nat {
        spec_estimate(utf8_len(self.spec_pattern()), self.spec_notations(), self.has_romaji())
    }

    /// The notations that the configuration asks for; none without one.
    pub open spec fn spec_asked(&self) -> PinyinNotation {
        match self.spec_pinyin() {
            Some(p) => p.notations,
            None => PinyinNotation(0),
        }
    }

    /// Whether a partial pattern is allowed for pinyin.
    pub open spec fn spec_partial(&self, before: bool) -> bool {
        match self.spec_pinyin() {
            Some(p) => self.spec_is_pattern_partial() && p.allow_partial_pattern,
            None => before,
        }
    }

    /// The start of an analysis: nothing is known of the haystack, but
    /// that with romaji one character of two bytes may do.
    fn reset(&mut self)
        requires
            old(self).wf(),
        ensures
            final(self).wf(),
            final(self).pattern == old(self).pattern,
            final(self).pattern_bytes == old(self).pattern_bytes,
            final(self).is_pattern_partial == old(self).is_pattern_partial,
            final(self).pinyin == old(self).pinyin,
            final(self).romaji == old(self).romaji,
            final(self).traversal_count == old(self).traversal_count,
            final(self).pinyin_result.used_notations == old(self).pinyin_result.used_notations,
            final(self).pinyin_result.partial_pattern == final(self).spec_partial(
                old(self).pinyin_result.partial_pattern,
            ),
            final(self).min_haystack_chars == (if final(self).romaji is Some {
                1
            } else {
                usize::MAX
            }),
            final(self).min_haystack_len == (if final(self).romaji is Some {
                MIN_LEN
            } else {
                usize::MAX
            }),
    {
        match self.pinyin {
            Some(pinyin) => {
                self.pinyin_result.partial_pattern = self.is_pattern_partial
                    && pinyin.allow_partial_pattern;
            },
            None => {},
        }
        self.min_haystack_chars = usize::MAX;
        self.min_haystack_len = usize::MAX;
        if self.romaji.is_some() {
            self.set_min_haystack_chars(1);
            self.set_min_haystack_len(MIN_LEN);
        }
    }

    /// The estimate: every notation that is asked for counts as used, and
    /// the pattern's bytes are divided by the longest that a string of
    /// these notations can be.
    fn estimate(&mut self)
        requires
            old(self).wf(),
            old(self).min_haystack_chars == (if old(self).romaji is Some {
                1
            } else {
                usize::MAX
            }),
            old(self).min_haystack_len == (if old(self).romaji is Some {
                MIN_LEN
            } else {
                usize::MAX
            }),
        ensures
            final(self).wf(),
            final(self).same_setting(old(self)),
            final(self).traversal_count == old(self).traversal_count,
            final(self).pinyin_result.used_notations == final(self).spec_asked(),
            final(self).min_haystack_chars == final(self).spec_estimate_chars(),
            final(self).min_haystack_len == final(self).spec_estimate_len(),
            final(self).min_haystack_len <= utf8_len(final(self).pattern@),
    {
        let used = match self.pinyin {
            Some(pinyin) => pinyin.notations,
            None => PinyinNotation::empty(),
        };
        self.pinyin_result.used_notations = used;
        proof {
            let b = used.0;
            assert(b == 0 ==> b & 0xC == 0 && b & 0x2 == 0 && b & 0x3F0 == 0 && b & 0x1 == 0)
                by (bit_vector);
        }
        let min_haystack_chars = match used.max_len() {
            Some(max_len) => div_ceil(self.pattern_bytes, max_len),
            None => {
                let all = div_ceil(self.pattern_bytes, 1);
                all
            },
        };
        self.set_min_haystack_chars(min_haystack_chars);
        self.set_min_haystack_len(min_haystack_chars);
    }

    /// Analyzes the pattern.
    ///
    /// Without `traversal`, and where the walk takes more than
    /// `TRAVERSAL_LIMIT` steps, the result is the estimate. Otherwise it
    /// is what the walk finds, `spec_walk`: the notations that the pattern
    /// can use and the fewest bytes of a haystack that it can match, which
    /// are no more than the bytes of the pattern, and, without romaji, no
    /// fewer than the estimate.
    pub fn analyze(&mut self, config: PatternAnalyzeConfig)
        requires
            old(self).wf(),
        ensures
            final(self).wf(),
            final(self).spec_pattern() == old(self).spec_pattern(),
            final(self).spec_is_pattern_partial() == old(self).spec_is_pattern_partial(),
            final(self).spec_pinyin() == old(self).spec_pinyin(),
            final(self).has_romaji() == old(self).has_romaji(),
            final(self).spec_result().partial_pattern == final(self).spec_partial(
                old(self).spec_result().partial_pattern,
            ),
            !config.traversal || final(self).spec_traversal_count() > TRAVERSAL_LIMIT ==> {
                &&& final(self).spec_result().used_notations == final(self).spec_asked()
                &&& final(self).spec_min_haystack_chars() == final(self).spec_estimate_chars()
                &&& final(self).spec_min_haystack_len() == final(self).spec_estimate_len()
            },
            final(self).spec_result().used_notations == spec_analyze(
                final(self).setting(),
                final(self).has_romaji(),
                config.traversal,
            ).used,
            final(self).spec_min_haystack_chars() == spec_analyze(
                final(self).setting(),
                final(self).has_romaji(),
                config.traversal,
            ).min_chars,
            final(self).spec_min_haystack_len() == spec_analyze(
                final(self).setting(),
                final(self).has_romaji(),
                config.traversal,
            ).min_len,
            final(self).setting() == (WalkSetting {
                pattern: final(self).spec_pattern(),
                pinyin: final(self).spec_pinyin(),
                partial: final(self).spec_result().partial_pattern,
            }),
            config.traversal ==> {
                let walked = spec_walk(
                    final(self).setting(),
                    spec_start(final(self).has_romaji()),
                    0,
                    0,
                    0,
                );
                &&& final(self).spec_traversal_count() == walked.count
                &&& walked.count <= TRAVERSAL_LIMIT ==> final(self).state() == walked
            },
            final(self).spec_asked().spec_contains(final(self).spec_result().used_notations),
            final(self).spec_min_haystack_len() <= utf8_len(final(self).spec_pattern()),
            final(self).spec_min_haystack_len() <= 3 * utf8_len(final(self).spec_pattern()),
            !final(self).has_romaji() ==> final(self).spec_min_haystack_len() >= spec_div_ceil(
                utf8_len(final(self).spec_pattern()),
                spec_unit(final(self).spec_notations()),
            ),
            final(self).has_romaji() ==> final(self).spec_min_haystack_len() <= MIN_LEN,
    {
        self.reset();
        let ghost unit = spec_unit(self.spec_notations());
        let ghost total = utf8_len(self.pattern@);
        proof {
            let a = self.spec_asked().0;
            assert(a & a == a) by (bit_vector);
            assert(a & 0 == 0) by (bit_vector);
        }
        if config.traversal {
            self.pinyin_result.used_notations = PinyinNotation::empty();
            self.traversal_count = 0;
            proof {
                assert(self.pattern@.take(0) == Seq::<char>::empty());
                assert(usize::MAX * unit >= total) by (nonlinear_arith)
                    requires
                        unit >= 1,
                        total <= usize::MAX,
                ;
            }
            self.sub_analyze(0, 0, 0);
            if self.traversal_count > TRAVERSAL_LIMIT {
                self.reset();
                self.estimate();
                proof {
                    lemma_estimate_least(total, self.spec_notations(), self.has_romaji());
                }
            } else {
                proof {
                    assert(self.pattern@.skip(0) == self.pattern@);
                    if self.romaji is None {
                        lemma_div_ceil_least(self.min_haystack_len as nat, total, unit);
                    }
                }
            }
        } else {
            self.estimate();
            proof {
                lemma_estimate_least(total, self.spec_notations(), self.has_romaji());
            }
        }
    }
}

/// What a walk starts from: no steps, no notation used, and of the
/// haystack nothing known, but that with romaji one character of as many
/// bytes as the shortest kanji may do.
pub open spec fn spec_start(romaji: bool) -> WalkState {
    WalkState {
        count: 0,
        used: PinyinNotation(0),
        min_chars: if romaji {
            1
        } else {
            usize::MAX
        },
        min_len: if romaji {
            MIN_LEN
        } else {
            usize::MAX
        },
    }
}

/// What an analysis finds, but for the count of steps: what the walk
/// finds, where there is a walk and it takes no more than
/// `TRAVERSAL_LIMIT` steps; else the estimate, with every notation that is
/// asked for as used.
pub open spec fn spec_analyze(setting: WalkSetting<'_>, romaji: bool, traversal: bool) -> WalkState
    {
    let walked = spec_walk(setting, spec_start(romaji), 0, 0, 0);
    if traversal && walked.count <= TRAVERSAL_LIMIT {
        walked
    } else {
        let notations = match setting.pinyin {
            Some(p) => Some(p.notations),
            None => None,
        };
        let by_pinyin = spec_div_ceil(utf8_len(setting.pattern), spec_unit(notations));
        WalkState {
            count: walked.count,
            used: match setting.pinyin {
                Some(p) => p.notations,
                None => PinyinNotation(0),
            },
            min_chars: if romaji && 1 < by_pinyin {
                1
            } else {
                by_pinyin as usize
            },
            min_len: spec_estimate(utf8_len(setting.pattern), notations, romaji) as usize,
        }
    }
}

/// The estimate is `bytes / unit` rounded up unless there is romaji, and
/// then no more than the bytes of the shortest kanji.
pub proof fn lemma_estimate_least(bytes: nat, notations: Option<PinyinNotation>, romaji: bool)
    ensures
        !romaji ==> spec_estimate(bytes, notations, romaji) == spec_div_ceil(
            bytes,
            spec_unit(notations),
        ),
        romaji ==> spec_estimate(bytes, notations, romaji) <= MIN_LEN,
{
}

/// What an analyzer is made of. See `PatternAnalyzer::builder`.
pub struct PatternAnalyzerBuilder<'a, 'p> {
    pub pattern: &'p str,
    pub is_pattern_partial: bool,
    pub pinyin: Option<PinyinMatchConfig<'a>>,
    pub romaji: Option<RomajiMatchConfig<'a>>,
}

impl<'a, 'p> PatternAnalyzerBuilder<'a, 'p> {
    /// Default: `false`.
    pub fn is_pattern_partial(self, is_pattern_partial: bool) -> (r: Self)
        ensures
            r == (PatternAnalyzerBuilder { is_pattern_partial, ..self }),
    {
        PatternAnalyzerBuilder { is_pattern_partial, ..self }
    }

    pub fn pinyin(self, pinyin: PinyinMatchConfig<'a>) -> (r: Self)
        ensures
            r == (PatternAnalyzerBuilder { pinyin: Some(pinyin), ..self }),
    {
        PatternAnalyzerBuilder { pinyin: Some(pinyin), ..self }
    }

    pub fn romaji(self, romaji: RomajiMatchConfig<'a>) -> (r: Self)
        ensures
            r == (PatternAnalyzerBuilder { romaji: Some(romaji), ..self }),
    {
        PatternAnalyzerBuilder { romaji: Some(romaji), ..self }
    }

    /// `PatternAnalyzer::new` with what was set.
    pub fn build(self) -> (r: PatternAnalyzer<'a>)
        requires
            self.pinyin is Some ==> self.pinyin->0.wf(),
        ensures
            r.wf(),
            r.spec_pattern() == self.pattern@,
            r.spec_is_pattern_partial() == self.is_pattern_partial,
            r.spec_pinyin() == self.pinyin,
            r.has_romaji() == self.romaji is Some,
            r.spec_result() == (PinyinAnalyzeResult {
                used_notations: PinyinNotation(0),
                partial_pattern: false,
            }),
            r.spec_min_haystack_len() == 0,
            r.spec_min_haystack_chars() == 0,
    {
        PatternAnalyzer::new(self.pattern, self.is_pattern_partial, self.pinyin, self.romaji)
    }
}

impl<'a> PatternAnalyzer<'a> {
    /// What an analyzer of `pattern` is made of; no language is set yet.
    pub fn builder<'p>(pattern: &'p str) -> (r: PatternAnalyzerBuilder<'a, 'p>)
        ensures
            r == (PatternAnalyzerBuilder {
                pattern,
                is_pattern_partial: false,
                pinyin: None,
                romaji: None,
            }),
    {
        PatternAnalyzerBuilder { pattern, is_pattern_partial: false, pinyin: None, romaji: None }
    }
}

} // verus!
