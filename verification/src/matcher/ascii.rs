//! The matcher for haystacks that are ASCII throughout.
use vstd::prelude::*;
use vstd::slice::slice_subrange;
use crate::matcher::matches::Match;
use crate::matcher::regex_utils::{regex_builds, RegexMatcher, spec_escape_bytes};

verus! {

/// How the characters of a pattern are matched as themselves.
///
/// Note `case_insensitive` is `true` by default, unlike that of pinyin and
/// of romaji.
#[derive(Clone, Copy, Debug)]
pub struct PlainMatchConfig {
    pub case_insensitive: bool,
}

impl PlainMatchConfig {
    /// The configuration that ignores case.
    pub fn new() -> (r: PlainMatchConfig)
        ensures
            r.case_insensitive,
    {
        PlainMatchConfig { case_insensitive: true }
    }

    /// The configuration with the given case sensitivity.
    pub fn case_insensitive(case_insensitive: bool) -> (r: Option<PlainMatchConfig>)
        ensures
            r == Some(PlainMatchConfig { case_insensitive }),
    {
        Some(PlainMatchConfig { case_insensitive })
    }
}

/// `aho_corasick::AhoCorasick`: an automaton that looks for patterns in
/// bytes.
#[verifier::external_type_specification]
#[verifier::external_body]
pub struct ExAhoCorasick(aho_corasick::AhoCorasick);

/// `aho_corasick::BuildError`: why an automaton could not be built.
#[verifier::external_type_specification]
#[verifier::external_body]
pub struct ExBuildError(aho_corasick::BuildError);

/// The one pattern that an automaton was built from.
pub uninterp spec fn automaton_pattern(ac: aho_corasick::AhoCorasick) -> Seq<u8>;

/// Whether an automaton was built to ignore the case of ASCII letters.
pub uninterp spec fn automaton_case_insensitive(ac: aho_corasick::AhoCorasick) -> bool;

/// Whether an automaton was built for anchored searches, and for no
/// others.
pub uninterp spec fn automaton_anchored(ac: aho_corasick::AhoCorasick) -> bool;

/// Whether the automaton for the one pattern `pattern` can be built: it is
/// not too large.
pub uninterp spec fn automaton_builds(
    pattern: Seq<u8>,
    case_insensitive: bool,
    anchored: bool,
) -> bool;

/// The lower-case form of an ASCII letter; any other byte is itself.
pub open spec fn ascii_lower(b: u8) -> u8 {
    if 65 <= b <= 90 {
        (b + 32) as u8
    } else {
        b
    }
}

/// Whether two bytes are the same, or the same but for the case of an
/// ASCII letter where case is ignored.
pub open spec fn byte_eq(a: u8, b: u8, case_insensitive: bool) -> bool {
    if case_insensitive {
        ascii_lower(a) == ascii_lower(b)
    } else {
        a == b
    }
}

/// Whether `pattern` stands in `haystack` from the byte `i` on.
pub open spec fn occurs(pattern: Seq<u8>, case_insensitive: bool, haystack: Seq<u8>, i: int) -> bool
    {
    &&& 0 <= i
    &&& i + pattern.len() <= haystack.len()
    &&& forall|k: int|
        0 <= k < pattern.len() ==> byte_eq(#[trigger] haystack[i + k], pattern[k], case_insensitive)
}

/// Whether `found` is the first match of a search from the byte `from`
/// on: where the search is anchored, the pattern where it stands at
/// `from`; else the pattern where it stands first at or after `from`.
pub open spec fn is_first(
    pattern: Seq<u8>,
    case_insensitive: bool,
    anchored: bool,
    haystack: Seq<u8>,
    from: int,
    found: Option<(int, int)>,
) -> bool {
    match found {
        Some((start, end)) => {
            &&& from <= start
            &&& occurs(pattern, case_insensitive, haystack, start)
            &&& end == start + pattern.len()
            &&& if anchored {
                start == from
            } else {
                forall|j: int| from <= j < start ==> !occurs(pattern, case_insensitive, haystack, j)
            }
        },
        None => if anchored {
            !occurs(pattern, case_insensitive, haystack, from)
        } else {
            forall|j: int| from <= j ==> !occurs(pattern, case_insensitive, haystack, j)
        },
    }
}

/// The first match of a search from the byte `from` on.
pub open spec fn spec_first(
    pattern: Seq<u8>,
    case_insensitive: bool,
    anchored: bool,
    haystack: Seq<u8>,
    from: int,
) -> Option<(int, int)> {
    if exists|found: Option<(int, int)>|
        is_first(pattern, case_insensitive, anchored, haystack, from, found) {
        choose|found: Option<(int, int)>|
            is_first(pattern, case_insensitive, anchored, haystack, from, found)
    } else {
        None
    }
}

/// There is one first match, or none.
pub proof fn lemma_first_unique(
    pattern: Seq<u8>,
    case_insensitive: bool,
    anchored: bool,
    haystack: Seq<u8>,
    from: int,
    found: Option<(int, int)>,
)
    requires
        is_first(pattern, case_insensitive, anchored, haystack, from, found),
    ensures
        spec_first(pattern, case_insensitive, anchored, haystack, from) == found,
{
    let other = spec_first(pattern, case_insensitive, anchored, haystack, from);
    assert(is_first(pattern, case_insensitive, anchored, haystack, from, other));
    match (found, other) {
        (Some((s1, e1)), Some((s2, e2))) => {
            if s1 < s2 {
                assert(!occurs(pattern, case_insensitive, haystack, s1));
            } else if s2 < s1 {
                assert(!occurs(pattern, case_insensitive, haystack, s2));
            }
        },
        (Some((s1, e1)), None) => {
            assert(!occurs(pattern, case_insensitive, haystack, s1));
        },
        (None, Some((s2, e2))) => {
            assert(!occurs(pattern, case_insensitive, haystack, s2));
        },
        (None, None) => {},
    }
}

/// The matches of a search that goes on from the end of each match, for
/// a pattern that is not empty.
pub open spec fn spec_find_all(
    pattern: Seq<u8>,
    case_insensitive: bool,
    anchored: bool,
    haystack: Seq<u8>,
    from: int,
) -> Seq<(int, int)>
    decreases haystack.len() - from,
{
    match spec_first(pattern, case_insensitive, anchored, haystack, from) {
        Some((start, end)) => if from < end <= haystack.len() {
            seq![(start, end)] + spec_find_all(pattern, case_insensitive, anchored, haystack, end)
        } else {
            seq![(start, end)]
        },
        None => Seq::empty(),
    }
}

/// A found match as integers.
pub open spec fn found_view(found: Option<(usize, usize)>) -> Option<(int, int)> {
    match found {
        Some((start, end)) => Some((start as int, end as int)),
        None => None,
    }
}

/// Found matches as integers.
pub open spec fn all_found_view(found: Seq<(usize, usize)>) -> Seq<(int, int)> {
    Seq::new(found.len(), |k: int| (found[k].0 as int, found[k].1 as int))
}

/// `AhoCorasickBuilder::build` for the one pattern `pattern`, with
/// `ascii_case_insensitive` as given and the start kind `Anchored` or
/// `Unanchored`; the match kind is the standard one.
#[verifier::external_body]
fn build_automaton(
    pattern: &[u8],
    case_insensitive: bool,
    anchored: bool,
) -> (r: Result<aho_corasick::AhoCorasick, aho_corasick::BuildError,>)
    ensures
        r is Ok == automaton_builds(pattern@, case_insensitive, anchored),
        r is Ok ==> automaton_pattern(r->Ok_0) == pattern@,
        r is Ok ==> automaton_case_insensitive(r->Ok_0) == case_insensitive,
        r is Ok ==> automaton_anchored(r->Ok_0) == anchored,
{
    aho_corasick::AhoCorasick::builder()
        .ascii_case_insensitive(case_insensitive)
        .start_kind(if anchored {
            aho_corasick::StartKind::Anchored
        } else {
            aho_corasick::StartKind::Unanchored
        })
        .build(&[pattern])
}

/// `AhoCorasick::find`: the first match in `haystack`, anchored at its
/// start where `anchored` is set. The search panics where it is anchored
/// and the automaton is not, or the other way round.
#[verifier::external_body]
fn automaton_find(
    ac: &aho_corasick::AhoCorasick,
    haystack: &[u8],
    anchored: bool,
) -> (r: Option<(usize, usize),>)
    requires
        anchored == automaton_anchored(*ac),
    ensures
        is_first(
            automaton_pattern(*ac),
            automaton_case_insensitive(*ac),
            anchored,
            haystack@,
            0,
            found_view(r),
        ),
{
    ac.find(
        aho_corasick::Input::new(haystack).anchored(
            if anchored {
                aho_corasick::Anchored::Yes
            } else {
                aho_corasick::Anchored::No
            },
        ),
    ).map(|m| (m.start(), m.end()))
}

/// `AhoCorasick::is_match`: whether `find` would find a match.
#[verifier::external_body]
fn automaton_is_match(ac: &aho_corasick::AhoCorasick, haystack: &[u8], anchored: bool) -> (r: bool)
    requires
        anchored == automaton_anchored(*ac),
    ensures
        r == spec_first(
            automaton_pattern(*ac),
            automaton_case_insensitive(*ac),
            anchored,
            haystack@,
            0,
        ) is Some,
{
    ac.is_match(
        aho_corasick::Input::new(haystack).anchored(
            if anchored {
                aho_corasick::Anchored::Yes
            } else {
                aho_corasick::Anchored::No
            },
        ),
    )
}

/// `AhoCorasick::find_iter`, collected: the first match, then the first
/// match of the search that goes on from its end, and so on. Stated for a
/// pattern that is not empty.
#[verifier::external_body]
fn automaton_find_all(
    ac: &aho_corasick::AhoCorasick,
    haystack: &[u8],
    anchored: bool,
) -> (r: Vec<(usize, usize),>)
    requires
        anchored == automaton_anchored(*ac),
        automaton_pattern(*ac).len() > 0,
    ensures
        all_found_view(r@) == spec_find_all(
            automaton_pattern(*ac),
            automaton_case_insensitive(*ac),
            anchored,
            haystack@,
            0,
        ),
{
    ac.find_iter(
        aho_corasick::Input::new(haystack).anchored(
            if anchored {
                aho_corasick::Anchored::Yes
            } else {
                aho_corasick::Anchored::No
            },
        ),
    ).map(|m| (m.start(), m.end())).collect()
}

/// `AhoCorasick::max_pattern_len`: the length of the one pattern.
#[verifier::external_body]
fn automaton_max_pattern_len(ac: &aho_corasick::AhoCorasick) -> (r: usize)
    ensures
        r == automaton_pattern(*ac).len(),
{
    ac.max_pattern_len()
}

/// An automaton for one pattern, and how it is to be used.
pub struct AcMatcher {
    ac: aho_corasick::AhoCorasick,
    starts_with: bool,
    ends_with: bool,
}

impl AcMatcher {
    /// The pattern of the automaton.
    pub closed spec fn pattern(&self) -> Seq<u8> {
        automaton_pattern(self.ac)
    }

    /// Whether the automaton ignores the case of ASCII letters.
    pub closed spec fn case_insensitive(&self) -> bool {
        automaton_case_insensitive(self.ac)
    }

    /// Whether matches have to start at the start of the haystack.
    pub closed spec fn starts_with(&self) -> bool {
        self.starts_with
    }

    /// Whether matches have to end at the end of the haystack.
    pub closed spec fn ends_with(&self) -> bool {
        self.ends_with
    }

    /// The automaton is anchored where matches have to start at the start.
    pub closed spec fn wf(&self) -> bool {
        automaton_anchored(self.ac) == self.starts_with
    }
}

/// The matcher for haystacks that are ASCII throughout.
pub enum AsciiMatcher {
    /// For a pattern that no ASCII haystack can hold.
    Fail,
    Ac(AcMatcher),
    /// An alternative to the automaton that `with_regex` makes; `new`
    /// never does.
    Regex(RegexMatcher),
}

/// The match of `pattern` that is found in an ASCII haystack:
/// - where matches may end anywhere, the first place at which the pattern
///   stands, which has to be the start where matches have to start there;
/// - where matches have to start at the start and end at the end, the
///   whole haystack if it is the pattern;
/// - where matches have to end at the end only, the end of the haystack if
///   the pattern stands there.
pub open spec fn spec_ascii_find(
    pattern: Seq<u8>,
    case_insensitive: bool,
    starts_with: bool,
    ends_with: bool,
    haystack: Seq<u8>,
) -> Option<(int, int)> {
    if !ends_with {
        spec_first(pattern, case_insensitive, starts_with, haystack, 0)
    } else if starts_with {
        if occurs(pattern, case_insensitive, haystack, 0) && pattern.len() == haystack.len() {
            Some((0, haystack.len() as int))
        } else {
            None
        }
    } else if occurs(pattern, case_insensitive, haystack, haystack.len() - pattern.len()) {
        Some((haystack.len() - pattern.len(), haystack.len() as int))
    } else {
        None
    }
}

/// The match of `pattern` at the start of an ASCII haystack: the pattern
/// where it stands there and, where matches have to end at the end, the
/// haystack ends with it.
pub open spec fn spec_ascii_test(
    pattern: Seq<u8>,
    case_insensitive: bool,
    ends_with: bool,
    haystack: Seq<u8>,
) -> Option<(int, int)> {
    if occurs(pattern, case_insensitive, haystack, 0) && (!ends_with || pattern.len()
        == haystack.len()) {
        Some((0, pattern.len() as int))
    } else {
        None
    }
}

/// The first of `found` that ends at `end`.
pub open spec fn spec_first_ending_at(found: Seq<(int, int)>, end: int) -> Option<(int, int)>
    decreases found.len(),
{
    if found.len() == 0 {
        None
    } else if found[0].1 == end {
        Some(found[0])
    } else {
        spec_first_ending_at(found.skip(1), end)
    }
}

/// `found` with both offsets moved by `by`.
pub open spec fn spec_shift(found: Option<(int, int)>, by: int) -> Option<(int, int)> {
    match found {
        Some((start, end)) => Some((start + by, end + by)),
        None => None,
    }
}

/// A match as integers.
pub open spec fn match_view(m: Option<Match>) -> Option<(int, int)> {
    match m {
        Some(m) => Some((m.spec_start() as int, m.spec_end() as int)),
        None => None,
    }
}

/// The first of `found` that ends at `end`.
pub fn first_ending_at(found: &[(usize, usize)], end: usize) -> (r: Option<(usize, usize)>)
    ensures
        found_view(r) == spec_first_ending_at(all_found_view(found@), end as int),
{
    let mut k: usize = 0;
    let ghost all = all_found_view(found@);
    proof {
        assert(all.skip(0) == all);
    }
    while k < found.len()
        invariant
            k <= found.len(),
            all == all_found_view(found@),
            spec_first_ending_at(all, end as int) == spec_first_ending_at(
                all.skip(k as int),
                end as int,
            ),
        decreases found.len() - k,
    {
        proof {
            assert(all.skip(k as int)[0] == all[k as int]);
            assert(all.skip(k as int).skip(1) == all.skip(k as int + 1));
        }
        if found[k].1 == end {
            return Some(found[k]);
        }
        k = k + 1;
    }
    None
}

impl AsciiMatcher {
    /// The automaton, where there is one, is anchored as matches are.
    pub open spec fn wf(&self) -> bool {
        match self {
            AsciiMatcher::Fail => true,
            AsciiMatcher::Ac(m) => m.wf(),
            AsciiMatcher::Regex(_) => true,
        }
    }

    /// The matcher for `pattern`, made of the automaton for it or of the
    /// failure to build one: none is needed where `plain` is off or the
    /// pattern is not ASCII.
    pub fn assemble(
        built: Option<Result<aho_corasick::AhoCorasick, aho_corasick::BuildError>>,
        starts_with: bool,
        ends_with: bool,
    ) -> (r: Option<AsciiMatcher>)
        requires
            built is Some && built->0 is Ok ==> automaton_anchored(built->0->Ok_0) == starts_with,
        ensures
            built is None ==> r == Some(AsciiMatcher::Fail),
            built is Some && built->0 is Err ==> r is None,
            built is Some && built->0 is Ok ==> r is Some && r->0 is Ac && r->0->Ac_0.wf()
                && r->0->Ac_0.pattern() == automaton_pattern(built->0->Ok_0)
                && r->0->Ac_0.case_insensitive() == automaton_case_insensitive(built->0->Ok_0)
                && r->0->Ac_0.starts_with() == starts_with && r->0->Ac_0.ends_with() == ends_with,
    {
        match built {
            None => Some(AsciiMatcher::Fail),
            Some(Ok(ac)) => Some(AsciiMatcher::Ac(AcMatcher { ac, starts_with, ends_with })),
            Some(Err(_)) => None,
        }
    }

    /// The matcher for `pattern`: `Fail` where `plain` is off or the
    /// pattern is not ASCII, else an automaton for the pattern, anchored
    /// where `starts_with` is set. `None` where the automaton cannot be
    /// built.
    pub fn new(
        pattern: &[u8],
        plain: Option<&PlainMatchConfig>,
        starts_with: bool,
        ends_with: bool,
    ) -> (r: Option<AsciiMatcher>)
        ensures
            r is Some == (plain is None || !is_ascii_bytes(pattern@) || automaton_builds(
                pattern@,
                plain->0.case_insensitive,
                starts_with,
            )),
            plain is None || !is_ascii_bytes(pattern@) ==> r == Some(AsciiMatcher::Fail),
            r is Some ==> r->0.wf(),
            r is Some && plain is Some && is_ascii_bytes(pattern@) ==> {
                &&& r->0 is Ac
                &&& r->0->Ac_0.pattern() == pattern@
                &&& r->0->Ac_0.case_insensitive() == plain->0.case_insensitive
                &&& r->0->Ac_0.starts_with() == starts_with
                &&& r->0->Ac_0.ends_with() == ends_with
            },
    {
        let built = match plain {
            Some(plain) => {
                if bytes_are_ascii(pattern) {
                    Some(build_automaton(pattern, plain.case_insensitive, starts_with))
                } else {
                    None
                }
            },
            None => None,
        };
        Self::assemble(built, starts_with, ends_with)
    }

    /// The matcher for `pattern` that is a regular expression: `Fail`
    /// where `plain` is off or the pattern is not ASCII, else the regular
    /// expression that matches the bytes of the pattern. `None` where the
    /// regular expression cannot be built.
    pub fn with_regex(pattern: &[u8], plain: Option<&PlainMatchConfig>) -> (r: Option<AsciiMatcher>)
        ensures
            r is Some == (plain is None || !is_ascii_bytes(pattern@) || regex_builds(
                spec_escape_bytes(pattern@),
                plain->0.case_insensitive,
            )),
            plain is None || !is_ascii_bytes(pattern@) ==> r == Some(AsciiMatcher::Fail),
            r is Some && plain is Some && is_ascii_bytes(pattern@) ==> {
                &&& r->0 is Regex
                &&& r->0->Regex_0.source() == spec_escape_bytes(pattern@)
                &&& r->0->Regex_0.case_insensitive() == plain->0.case_insensitive
            },
    {
        match plain {
            Some(plain) => {
                if bytes_are_ascii(pattern) {
                    match RegexMatcher::new(pattern, plain.case_insensitive) {
                        Some(m) => Some(AsciiMatcher::Regex(m)),
                        None => None,
                    }
                } else {
                    Some(AsciiMatcher::Fail)
                }
            },
            None => Some(AsciiMatcher::Fail),
        }
    }

    /// What `find` yields.
    pub open spec fn spec_find(&self, haystack: Seq<u8>) -> Option<(int, int)> {
        match self {
            AsciiMatcher::Regex(m) => found_view(m.spec_find(haystack)),
            AsciiMatcher::Fail => None,
            AsciiMatcher::Ac(m) => spec_ascii_find(
                m.pattern(),
                m.case_insensitive(),
                m.starts_with(),
                m.ends_with(),
                haystack,
            ),
        }
    }

    /// The first match in `haystack`. For a regular expression, its
    /// leftmost match. For an automaton: anchored at the start where
    /// `starts_with` is set; where `ends_with` is set, only a match that
    /// ends at the end of the haystack, sought in its last bytes only, as
    /// many as the pattern has, unless `starts_with` is set.
    pub fn find(&self, haystack: &[u8]) -> (r: Option<Match>)
        requires
            self.wf(),
        ensures
            match_view(r) == self.spec_find(haystack@),
            r is Some ==> !r->0.spec_is_pattern_partial() && r->0.spec_start() <= r->0.spec_end()
                <= haystack@.len(),
    {
        match self {
            AsciiMatcher::Regex(m) => match m.find(haystack) {
                Some((start, end)) => Some(Match::new(start, end, false)),
                None => None,
            },
            AsciiMatcher::Fail => None,
            AsciiMatcher::Ac(m) => {
                if m.ends_with && m.starts_with {
                    match automaton_find(&m.ac, haystack, true) {
                        Some((s, e)) => {
                            if e == haystack.len() {
                                Some(Match::new(s, e, false))
                            } else {
                                None
                            }
                        },
                        None => None,
                    }
                } else if m.ends_with {
                    let n = automaton_max_pattern_len(&m.ac);
                    if n == 0 {
                        return Some(Match::new(haystack.len(), haystack.len(), false));
                    }
                    let start = if haystack.len() < n {
                        0
                    } else {
                        haystack.len() - n
                    };
                    let tail = slice_subrange(haystack, start, haystack.len());
                    let all = automaton_find_all(&m.ac, tail, false);
                    proof {
                        lemma_tail_search(m.pattern(), m.case_insensitive(), haystack@);
                    }
                    match first_ending_at(all.as_slice(), tail.len()) {
                        Some((s, e)) => Some(Match::new(start + s, start + e, false)),
                        None => None,
                    }
                } else {
                    let found = automaton_find(&m.ac, haystack, m.starts_with);
                    proof {
                        lemma_first_unique(
                            m.pattern(),
                            m.case_insensitive(),
                            m.starts_with(),
                            haystack@,
                            0,
                            found_view(found),
                        );
                    }
                    match found {
                        Some((s, e)) => Some(Match::new(s, e, false)),
                        None => None,
                    }
                }
            },
        }
    }

    /// Whether `find` finds a match.
    pub fn is_match(&self, haystack: &[u8]) -> (r: bool)
        requires
            self.wf(),
        ensures
            r == self.spec_find(haystack@) is Some,
    {
        match self {
            AsciiMatcher::Regex(m) => m.find(haystack).is_some(),
            AsciiMatcher::Fail => false,
            AsciiMatcher::Ac(m) => {
                if m.ends_with {
                    self.find(haystack).is_some()
                } else {
                    automaton_is_match(&m.ac, haystack, m.starts_with)
                }
            },
        }
    }

    /// What `test` yields.
    pub open spec fn spec_test(&self, haystack: Seq<u8>) -> Option<(int, int)> {
        match self {
            AsciiMatcher::Regex(m) => match m.spec_find(haystack) {
                Some((start, end)) => if start == 0 {
                    Some((0, end as int))
                } else {
                    None
                },
                None => None,
            },
            AsciiMatcher::Fail => None,
            AsciiMatcher::Ac(m) => spec_ascii_test(
                m.pattern(),
                m.case_insensitive(),
                m.ends_with(),
                haystack,
            ),
        }
    }

    /// The first match in `haystack`, where it starts at the start and,
    /// where `ends_with` is set, ends at the end.
    pub fn test(&self, haystack: &[u8]) -> (r: Option<Match>)
        requires
            self.wf(),
        ensures
            match_view(r) == self.spec_test(haystack@),
            r is Some ==> !r->0.spec_is_pattern_partial() && r->0.spec_start() <= r->0.spec_end()
                <= haystack@.len(),
    {
        match self {
            AsciiMatcher::Regex(m) => match m.find(haystack) {
                Some((start, end)) => {
                    if start == 0 {
                        Some(Match::new(0, end, false))
                    } else {
                        None
                    }
                },
                None => None,
            },
            AsciiMatcher::Fail => None,
            AsciiMatcher::Ac(m) => {
                match automaton_find(&m.ac, haystack, m.starts_with) {
                    Some((s, e)) => {
                        if s == 0 && (!m.ends_with || e == haystack.len()) {
                            Some(Match::new(0, e, false))
                        } else {
                            None
                        }
                    },
                    None => None,
                }
            },
        }
    }
}

/// In the last bytes of a haystack, as many as the pattern has, the
/// pattern stands at most once: the matches there, sought one after the
/// other, hold one that ends at the end if and only if the haystack ends
/// with the pattern.
pub proof fn lemma_tail_search(pattern: Seq<u8>, case_insensitive: bool, haystack: Seq<u8>)
    requires
        pattern.len() > 0,
    ensures
        ({
            let start = if haystack.len() < pattern.len() {
                0
            } else {
                haystack.len() - pattern.len()
            };
            let tail = haystack.subrange(start, haystack.len() as int);
            spec_shift(
                spec_first_ending_at(
                    spec_find_all(pattern, case_insensitive, false, tail, 0),
                    tail.len() as int,
                ),
                start,
            ) == spec_ascii_find(pattern, case_insensitive, false, true, haystack)
        }),
{
    let n = pattern.len() as int;
    let start = if haystack.len() < n {
        0
    } else {
        haystack.len() - n
    };
    let tail = haystack.subrange(start, haystack.len() as int);
    assert forall|k: int| 0 <= k < tail.len() implies tail[k] == haystack[start + k] by {}
    if occurs(pattern, case_insensitive, haystack, haystack.len() - n) {
        assert(occurs(pattern, case_insensitive, tail, 0)) by {
            assert forall|k: int| 0 <= k < n implies byte_eq(
                #[trigger] tail[0 + k],
                pattern[k],
                case_insensitive,
            ) by {
                assert(byte_eq(haystack[haystack.len() - n + k], pattern[k], case_insensitive));
            }
        }
        lemma_first_unique(pattern, case_insensitive, false, tail, 0, Some((0, n)));
        let all = spec_find_all(pattern, case_insensitive, false, tail, 0);
        assert(all[0] == (0int, n));
    } else {
        assert forall|j: int| 0 <= j implies !occurs(pattern, case_insensitive, tail, j) by {
            if occurs(pattern, case_insensitive, tail, j) {
                assert(j == 0);
                assert forall|k: int| 0 <= k < n implies byte_eq(
                    #[trigger] haystack[haystack.len() - n + k],
                    pattern[k],
                    case_insensitive,
                ) by {
                    assert(byte_eq(tail[0 + k], pattern[k], case_insensitive));
                }
            }
        }
        lemma_first_unique(pattern, case_insensitive, false, tail, 0, None);
    }
}

/// Whether every byte is ASCII.
pub open spec fn is_ascii_bytes(bytes: Seq<u8>) -> bool {
    forall|i: int| 0 <= i < bytes.len() ==> (#[trigger] bytes[i]) < 128
}

/// Whether every byte is ASCII.
pub fn bytes_are_ascii(bytes: &[u8]) -> (r: bool)
    ensures
        r == is_ascii_bytes(bytes@),
{
    let mut i: usize = 0;
    while i < bytes.len()
        invariant
            i <= bytes.len(),
            forall|j: int| 0 <= j < i ==> (#[trigger] bytes@[j]) < 128,
        decreases bytes.len() - i,
    {
        if bytes[i] >= 128 {
            return false;
        }
        i = i + 1;
    }
    true
}

/// Where the pattern stands at or after `from`, there is a first place
/// at which it stands.
pub proof fn lemma_first_exists(
    pattern: Seq<u8>,
    case_insensitive: bool,
    haystack: Seq<u8>,
    from: int,
    at: int,
)
    requires
        from <= at,
        occurs(pattern, case_insensitive, haystack, at),
    ensures
        exists|found: Option<(int, int)>|
            found is Some && #[trigger] is_first(
                pattern,
                case_insensitive,
                false,
                haystack,
                from,
                found,
            ),
    decreases at - from,
{
    if exists|j: int| from <= j < at && occurs(pattern, case_insensitive, haystack, j) {
        let j = choose|j: int| from <= j < at && occurs(pattern, case_insensitive, haystack, j);
        lemma_first_exists(pattern, case_insensitive, haystack, from, j);
    } else {
        assert(is_first(
            pattern,
            case_insensitive,
            false,
            haystack,
            from,
            Some((at, at + pattern.len())),
        ));
    }
}

/// A search that is not anchored finds a match if and only if the pattern
/// stands somewhere in the haystack; one that is anchored, if and only if
/// it stands at the start.
pub proof fn lemma_first_is_some(
    pattern: Seq<u8>,
    case_insensitive: bool,
    anchored: bool,
    haystack: Seq<u8>,
)
    ensures
        spec_first(pattern, case_insensitive, anchored, haystack, 0) is Some <==> (if anchored {
            occurs(pattern, case_insensitive, haystack, 0)
        } else {
            exists|i: int| occurs(pattern, case_insensitive, haystack, i)
        }),
        spec_first(pattern, case_insensitive, anchored, haystack, 0) is Some ==> pattern.len()
            <= haystack.len(),
{
    let first = spec_first(pattern, case_insensitive, anchored, haystack, 0);
    if anchored {
        if occurs(pattern, case_insensitive, haystack, 0) {
            lemma_first_unique(
                pattern,
                case_insensitive,
                anchored,
                haystack,
                0,
                Some((0, pattern.len() as int)),
            );
        } else {
            lemma_first_unique(pattern, case_insensitive, anchored, haystack, 0, None);
        }
    } else {
        if exists|i: int| occurs(pattern, case_insensitive, haystack, i) {
            let i = choose|i: int| occurs(pattern, case_insensitive, haystack, i);
            lemma_first_exists(pattern, case_insensitive, haystack, 0, i);
            let found = choose|found: Option<(int, int)>|
                found is Some && #[trigger] is_first(
                    pattern,
                    case_insensitive,
                    false,
                    haystack,
                    0,
                    found,
                );
            lemma_first_unique(pattern, case_insensitive, anchored, haystack, 0, found);
        } else {
            lemma_first_unique(pattern, case_insensitive, anchored, haystack, 0, None);
        }
    }
    if first is Some {
        if exists|found: Option<(int, int)>|
            is_first(pattern, case_insensitive, anchored, haystack, 0, found) {
            assert(is_first(pattern, case_insensitive, anchored, haystack, 0, first));
        }
    }
}

impl AsciiMatcher {
    /// A match takes as many bytes as the pattern has: a haystack with
    /// fewer has none.
    pub proof fn lemma_needs_room(&self, haystack: Seq<u8>)
        requires
            self is Ac,
        ensures
            self.spec_find(haystack) is Some ==> self->Ac_0.pattern().len() <= haystack.len(),
            self.spec_test(haystack) is Some ==> self->Ac_0.pattern().len() <= haystack.len(),
    {
        let m = self->Ac_0;
        lemma_first_is_some(m.pattern(), m.case_insensitive(), m.starts_with(), haystack);
    }
}

} // verus!
