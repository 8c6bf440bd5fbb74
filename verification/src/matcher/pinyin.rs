//! How a pattern is matched as pinyin.
use vstd::prelude::*;
use crate::pinyin::data::PinyinData;
use crate::pinyin::notation::{
    ASCII, ASCII_FIRST_LETTER, ASCII_TONE, DILETTER_ABC, DILETTER_JIAJIA, DILETTER_MICROSOFT,
    DILETTER_THUNISOFT, DILETTER_XIAOHE, DILETTER_ZRM, lemma_select_exact, lemma_select_members,
    PinyinNotation, UNICODE,
};

verus! {

/// How a pattern is matched as pinyin.
///
/// One `PinyinData` can be shared by all configurations: making it is
/// what takes time.
#[derive(Clone, Copy)]
pub struct PinyinMatchConfig<'a> {
    pub notations: PinyinNotation,
    /// Must hold the strings of `notations`.
    pub data: &'a PinyinData,
    /// Whether upper case letters can match pinyins.
    pub case_insensitive: bool,
    pub allow_partial_pattern: bool,
}

/// Sets the options of a `PinyinMatchConfig`.
pub struct PinyinMatchConfigBuilder<'a> {
    pub config: PinyinMatchConfig<'a>,
}

impl<'a> PinyinMatchConfigBuilder<'a> {
    /// Whether upper case letters can match pinyins. Default: `false`.
    pub fn case_insensitive(self, case_insensitive: bool) -> (r: Self)
        ensures
            r.config == (PinyinMatchConfig { case_insensitive, ..self.config }),
    {
        PinyinMatchConfigBuilder { config: PinyinMatchConfig { case_insensitive, ..self.config } }
    }

    /// Default: `true`.
    pub fn allow_partial_pattern(self, allow_partial_pattern: bool) -> (r: Self)
        ensures
            r.config == (PinyinMatchConfig { allow_partial_pattern, ..self.config }),
    {
        PinyinMatchConfigBuilder {
            config: PinyinMatchConfig { allow_partial_pattern, ..self.config },
        }
    }

    pub fn build(self) -> (r: PinyinMatchConfig<'a>)
        ensures
            r == self.config,
    {
        self.config
    }
}

impl<'a> PinyinMatchConfig<'a> {
    /// The data is well formed and holds the strings of the notations.
    pub open spec fn wf(&self) -> bool {
        &&& self.data.wf()
        &&& self.data.inited().spec_contains(self.notations)
    }

    /// The configuration with the default options: upper case letters do
    /// not match pinyins, and a partial pattern is allowed.
    pub fn builder(
        notations: PinyinNotation,
        data: &'a PinyinData,
    ) -> (r: PinyinMatchConfigBuilder<'a>)
        ensures
            r.config == (PinyinMatchConfig {
                notations,
                data,
                case_insensitive: false,
                allow_partial_pattern: true,
            }),
    {
        PinyinMatchConfigBuilder {
            config: PinyinMatchConfig {
                notations,
                data,
                case_insensitive: false,
                allow_partial_pattern: true,
            },
        }
    }

    /// The configuration with the default options.
    pub fn notations(notations: PinyinNotation, data: &'a PinyinData) -> (r: PinyinMatchConfig<'a>)
        ensures
            r == (PinyinMatchConfig {
                notations,
                data,
                case_insensitive: false,
                allow_partial_pattern: true,
            }),
    {
        Self::builder(notations, data).build()
    }

    /// The same configuration on the same data.
    pub fn shallow_clone(&self) -> (r: PinyinMatchConfig<'a>)
        ensures
            r == *self,
    {
        PinyinMatchConfig {
            notations: self.notations,
            data: self.data,
            case_insensitive: self.case_insensitive,
            allow_partial_pattern: self.allow_partial_pattern,
        }
    }

    /// Each notation of the configuration has its strings at hand.
    pub proof fn lemma_has_notation(&self, n: PinyinNotation)
        requires
            self.wf(),
            n.is_single(),
            self.notations.spec_contains(n),
        ensures
            self.data.has_notation(n),
    {
        let a = self.data.inited().0;
        let s = self.notations.0;
        let b = n.0;
        assert(a & s == s && s & b == b ==> a & b == b) by (bit_vector);
        self.data.lemma_wf();
        assert(self.data.inited().spec_contains(n));
    }
}

/// What the analysis of a pattern says of pinyin.
#[derive(Debug, Clone, Copy, PartialEq, Eq, Structural)]
pub struct PinyinAnalyzeResult {
    /// Where `Ascii` and `AsciiFirstLetter` are both asked for, `Ascii` is
    /// used only if the pattern holds a pinyin of more than one letter.
    pub used_notations: PinyinNotation,
    pub partial_pattern: bool,
}

impl PinyinAnalyzeResult {
    pub fn new() -> (r: PinyinAnalyzeResult)
        ensures
            r.used_notations == PinyinNotation(0),
            !r.partial_pattern,
    {
        PinyinAnalyzeResult { used_notations: PinyinNotation::empty(), partial_pattern: false }
    }
}

impl Default for PinyinAnalyzeResult {
    /// No notation is used, and no partial pattern allowed.
    fn default() -> (r: PinyinAnalyzeResult)
        ensures
            r.used_notations == PinyinNotation(0),
            !r.partial_pattern,
    {
        PinyinAnalyzeResult { used_notations: PinyinNotation::empty(), partial_pattern: false }
    }
}

/// The ten notations in the order in which they are tried.
pub open spec fn ordered_pinyin_notations() -> Seq<PinyinNotation> {
    seq![
        PinyinNotation(ASCII_FIRST_LETTER),
        PinyinNotation(ASCII),
        PinyinNotation(ASCII_TONE),
        PinyinNotation(UNICODE),
        PinyinNotation(DILETTER_ABC),
        PinyinNotation(DILETTER_JIAJIA),
        PinyinNotation(DILETTER_MICROSOFT),
        PinyinNotation(DILETTER_THUNISOFT),
        PinyinNotation(DILETTER_XIAOHE),
        PinyinNotation(DILETTER_ZRM),
    ]
}

/// The notations whose strings start alike: where one of them does not
/// match, none of them does.
pub open spec fn prefix_notations() -> Seq<PinyinNotation> {
    seq![PinyinNotation(ASCII_FIRST_LETTER), PinyinNotation(ASCII), PinyinNotation(ASCII_TONE)]
}

/// The place of a notation in the prefix group: 0 for `AsciiFirstLetter`,
/// 1 for `Ascii`, 2 for `AsciiTone`; 3 for any other notation.
pub open spec fn prefix_rank(notation: PinyinNotation) -> int {
    if notation.0 == ASCII_FIRST_LETTER {
        0
    } else if notation.0 == ASCII {
        1
    } else if notation.0 == ASCII_TONE {
        2
    } else {
        3
    }
}

/// Whether `group` holds notations of the prefix group only, each before
/// those whose strings it starts.
pub open spec fn is_prefix_group(group: Seq<PinyinNotation>) -> bool {
    &&& forall|j: int| 0 <= j < group.len() ==> prefix_rank(#[trigger] group[j]) < 3
    &&& forall|j: int, k: int|
        0 <= j < k < group.len() ==> prefix_rank(#[trigger] group[j]) < prefix_rank(
            #[trigger] group[k],
        )
}

/// The prefix group of any used notations is in order.
pub proof fn lemma_prefix_group_ordered(used: PinyinNotation)
    ensures
        is_prefix_group(spec_prefix_group(used)),
{
    reveal_with_fuel(PinyinNotation::spec_select, 5);
    let list = prefix_notations();
    assert(list.drop_last() == seq![PinyinNotation(ASCII_FIRST_LETTER), PinyinNotation(ASCII)]);
    assert(list.drop_last().drop_last() == seq![PinyinNotation(ASCII_FIRST_LETTER)]);
    assert(list.drop_last().drop_last().drop_last() == Seq::<PinyinNotation>::empty());
}

/// Whether two or more of `AsciiFirstLetter`, `Ascii` and `AsciiTone` are
/// used.
pub open spec fn has_prefix_group(used: PinyinNotation) -> bool {
    let b = used.0 & 0x7;
    b != 0 && b != 1 && b != 2 && b != 4
}

/// The prefix group: the used ones of `AsciiFirstLetter`, `Ascii` and
/// `AsciiTone`, in that order, where two or more of them are used.
pub open spec fn spec_prefix_group(used: PinyinNotation) -> Seq<PinyinNotation> {
    if has_prefix_group(used) {
        used.spec_select(prefix_notations())
    } else {
        Seq::empty()
    }
}

/// The used notations that are not in the prefix group, in the order in
/// which they are tried.
pub open spec fn spec_independent_group(used: PinyinNotation) -> Seq<PinyinNotation> {
    if has_prefix_group(used) {
        PinyinNotation(used.0 & !0x7u32).spec_select(ordered_pinyin_notations())
    } else {
        used.spec_select(ordered_pinyin_notations())
    }
}

/// The notations that are tried for used notations `used`: the prefix
/// group, then the others.
pub open spec fn spec_tried(used: PinyinNotation) -> Seq<PinyinNotation> {
    spec_prefix_group(used) + spec_independent_group(used)
}

/// The notations that are tried are the used ones: each of the ten
/// notations is tried if and only if it is used, and none is tried twice.
pub proof fn lemma_tried_are_used(used: PinyinNotation)
    ensures
        forall|n: PinyinNotation|
            n.is_single() ==> (#[trigger] spec_tried(used).contains(n) <==> used.spec_contains(n)),
        forall|i: int, j: int|
            0 <= i < j < spec_tried(used).len() ==> spec_tried(used)[i] != spec_tried(used)[j],
        forall|i: int|
            0 <= i < spec_tried(used).len() ==> (#[trigger] spec_tried(used)[i]).is_single(),
{
    let first = spec_prefix_group(used);
    let second = spec_independent_group(used);
    let all = spec_tried(used);
    let rest = if has_prefix_group(used) {
        PinyinNotation(used.0 & !0x7u32)
    } else {
        used
    };
    let u = used.0;
    lemma_ordered_notations_complete();
    assert forall|i: int, j: int|
        0 <= i < j < prefix_notations().len() implies prefix_notations()[i]
        != prefix_notations()[j] by {}
    lemma_select_exact(used, prefix_notations());
    lemma_select_exact(rest, ordered_pinyin_notations());
    assert forall|n: PinyinNotation| #[trigger] first.contains(n) implies has_prefix_group(used)
        && used.spec_contains(n) && prefix_rank(n) < 3 by {
        let k = choose|k: int| 0 <= k < 3 && prefix_notations()[k] == n;
    }
    assert forall|n: PinyinNotation| #[trigger] second.contains(n) implies n.is_single()
        && used.spec_contains(n) && (has_prefix_group(used) ==> prefix_rank(n) == 3) by {
        let k = choose|k: int| 0 <= k < 10 && ordered_pinyin_notations()[k] == n;
        let b = n.0;
        assert((u & !0x7u32) & b == b ==> u & b == b) by (bit_vector);
        assert((u & !0x7u32) & 0x1 != 0x1 && (u & !0x7u32) & 0x2 != 0x2 && (u & !0x7u32) & 0x4
            != 0x4) by (bit_vector);
    }
    assert forall|n: PinyinNotation| n.is_single() implies (#[trigger] all.contains(n)
        <==> used.spec_contains(n)) by {
        let b = n.0;
        if all.contains(n) {
            let k = choose|k: int| 0 <= k < all.len() && all[k] == n;
            if k < first.len() {
                assert(first[k] == n);
                assert(first.contains(n));
            } else {
                assert(second[k - first.len()] == n);
                assert(second.contains(n));
            }
        }
        if used.spec_contains(n) {
            let q = choose|q: int| 0 <= q < 10 && ordered_pinyin_notations()[q] == n;
            assert(ordered_pinyin_notations().contains(n));
            if has_prefix_group(used) && prefix_rank(n) < 3 {
                assert(prefix_notations()[prefix_rank(n)] == n);
                assert(prefix_notations().contains(n));
                assert(first.contains(n));
                let k = choose|k: int| 0 <= k < first.len() && first[k] == n;
                assert(all[k] == n);
            } else {
                assert((b == 0x8 || b == 0x10 || b == 0x20 || b == 0x40 || b == 0x80 || b == 0x100
                    || b == 0x200) && u & b == b ==> (u & !0x7u32) & b == b) by (bit_vector);
                assert(rest.spec_contains(n));
                assert(second.contains(n));
                let k = choose|k: int| 0 <= k < second.len() && second[k] == n;
                assert(all[first.len() + k] == n);
            }
        }
    }
    assert forall|i: int, j: int| 0 <= i < j < all.len() implies all[i] != all[j] by {
        if j < first.len() {
            assert(first[i] == all[i] && first[j] == all[j]);
        } else if i >= first.len() {
            assert(second[i - first.len()] == all[i] && second[j - first.len()] == all[j]);
        } else {
            assert(first[i] == all[i]);
            assert(first.contains(all[i]));
            assert(second[j - first.len()] == all[j]);
            assert(second.contains(all[j]));
        }
    }
    assert forall|i: int| 0 <= i < all.len() implies (#[trigger] all[i]).is_single() by {
        if i < first.len() {
            assert(first[i] == all[i]);
            assert(first.contains(all[i]));
        } else {
            assert(second[i - first.len()] == all[i]);
            assert(second.contains(all[i]));
        }
    }
}

/// The order in which notations are tried holds each of the ten notations
/// once.
pub proof fn lemma_ordered_notations_complete()
    ensures
        ordered_pinyin_notations().len() == 10,
        forall|n: PinyinNotation|
            n.is_single() ==> exists|k: int|
                0 <= k < 10 && #[trigger] ordered_pinyin_notations()[k] == n,
        forall|j: int, k: int|
            0 <= j < k < 10 ==> ordered_pinyin_notations()[j] != ordered_pinyin_notations()[k],
        forall|k: int| 0 <= k < 10 ==> (#[trigger] ordered_pinyin_notations()[k]).is_single(),
{
    let s = ordered_pinyin_notations();
    assert forall|n: PinyinNotation| n.is_single() implies exists|k: int|
        0 <= k < 10 && #[trigger] ordered_pinyin_notations()[k] == n by {
        let k: int = if n.0 == ASCII_FIRST_LETTER {
            0
        } else if n.0 == ASCII {
            1
        } else if n.0 == ASCII_TONE {
            2
        } else if n.0 == UNICODE {
            3
        } else if n.0 == DILETTER_ABC {
            4
        } else if n.0 == DILETTER_JIAJIA {
            5
        } else if n.0 == DILETTER_MICROSOFT {
            6
        } else if n.0 == DILETTER_THUNISOFT {
            7
        } else if n.0 == DILETTER_XIAOHE {
            8
        } else {
            9
        };
        assert(s[k] == n);
    }
}

/// The ten notations in the order in which they are tried.
pub fn ordered_notations() -> (r: [PinyinNotation; 10])
    ensures
        r@ == ordered_pinyin_notations(),
{
    let r = [
        PinyinNotation(ASCII_FIRST_LETTER),
        PinyinNotation(ASCII),
        PinyinNotation(ASCII_TONE),
        PinyinNotation(UNICODE),
        PinyinNotation(DILETTER_ABC),
        PinyinNotation(DILETTER_JIAJIA),
        PinyinNotation(DILETTER_MICROSOFT),
        PinyinNotation(DILETTER_THUNISOFT),
        PinyinNotation(DILETTER_XIAOHE),
        PinyinNotation(DILETTER_ZRM),
    ];
    assert(r@ =~= ordered_pinyin_notations());
    r
}

/// How a pattern is matched as pinyin: the configuration, whether a
/// partial pattern is accepted, and the notations that are tried, the
/// prefix group first and then the others.
pub struct PinyinRules<'a> {
    pub config: PinyinMatchConfig<'a>,
    pub partial_pattern: bool,
    pub prefix_group: Seq<PinyinNotation>,
    pub others: Seq<PinyinNotation>,
}

impl<'a> PinyinRules<'a> {
    /// Every notation that is tried is one of the ten and has its strings
    /// at hand, and the prefix group is in order.
    pub open spec fn wf(&self) -> bool {
        &&& self.config.data.wf()
        &&& is_prefix_group(self.prefix_group)
        &&& forall|j: int|
            0 <= j < self.prefix_group.len() ==> (#[trigger] self.prefix_group[j]).is_single()
                && self.config.data.has_notation(self.prefix_group[j])
        &&& forall|j: int|
            0 <= j < self.others.len() ==> (#[trigger] self.others[j]).is_single()
                && self.config.data.has_notation(self.others[j])
    }
}

/// A pinyin configuration with the notations that a pattern uses, in the
/// order in which they are tried.
pub struct PinyinMatcher<'a> {
    pub config: PinyinMatchConfig<'a>,
    pub notations_prefix_group: Vec<PinyinNotation>,
    pub notations: Vec<PinyinNotation>,
    pub partial_pattern: bool,
}

impl<'a> View for PinyinMatcher<'a> {
    type V = PinyinRules<'a>;

    open spec fn view(&self) -> PinyinRules<'a> {
        PinyinRules {
            config: self.config,
            partial_pattern: self.partial_pattern,
            prefix_group: self.notations_prefix_group@,
            others: self.notations@,
        }
    }
}

impl<'a> PinyinMatcher<'a> {
    /// Every notation that is tried is one of the ten and has its strings
    /// at hand, and the prefix group is in order.
    pub open spec fn wf(&self) -> bool {
        self@.wf()
    }

    /// The matcher that tries the notations that the analysis found used:
    /// first the prefix group, then the others.
    pub fn new(
        config: PinyinMatchConfig<'a>,
        analyze: PinyinAnalyzeResult,
    ) -> (r: PinyinMatcher<'a>)
        requires
            config.wf(),
            config.notations.spec_contains(analyze.used_notations),
        ensures
            r.wf(),
            r.config == config,
            r.partial_pattern == analyze.partial_pattern,
            r.notations_prefix_group@ == spec_prefix_group(analyze.used_notations),
            r.notations@ == spec_independent_group(analyze.used_notations),
    {
        let used = analyze.used_notations;
        let low = used.0 & 0x7;
        let prefix: [PinyinNotation; 3] = [
            PinyinNotation(ASCII_FIRST_LETTER),
            PinyinNotation(ASCII),
            PinyinNotation(ASCII_TONE),
        ];
        assert(prefix@ =~= prefix_notations());
        let ordered = ordered_notations();
        let grouped = low != 0 && low != 1 && low != 2 && low != 4;
        let notations_prefix_group = if grouped {
            used.select(prefix.as_slice())
        } else {
            Vec::new()
        };
        let rest = if grouped {
            used.difference(PinyinNotation(0x7))
        } else {
            used
        };
        let notations = rest.select(ordered.as_slice());
        proof {
            lemma_prefix_group_ordered(used);
            lemma_select_members(used, prefix_notations());
            lemma_select_members(rest, ordered_pinyin_notations());
            lemma_ordered_notations_complete();
            assert forall|j: int| 0 <= j < notations_prefix_group@.len() implies (
            #[trigger] notations_prefix_group@[j]).is_single() && config.data.has_notation(
                notations_prefix_group@[j],
            ) by {
                let n = notations_prefix_group@[j];
                let k = choose|k: int| 0 <= k < 3 && prefix_notations()[k] == n;
                let a = config.notations.0;
                let u = used.0;
                let b = n.0;
                assert(a & u == u && u & b == b ==> a & b == b) by (bit_vector);
                config.lemma_has_notation(n);
            }
            assert forall|j: int| 0 <= j < notations@.len() implies (#[trigger]
                notations@[j]).is_single()
                && config.data.has_notation(notations@[j]) by {
                let n = notations@[j];
                let k = choose|k: int| 0 <= k < 10 && ordered_pinyin_notations()[k] == n;
                let a = config.notations.0;
                let u = used.0;
                let r = rest.0;
                let b = n.0;
                assert(a & u == u && (r == u || r == u & !0x7u32) && r & b == b ==> a & b == b)
                    by (bit_vector);
                config.lemma_has_notation(n);
            }
        }
        PinyinMatcher {
            config,
            notations_prefix_group,
            notations,
            partial_pattern: analyze.partial_pattern,
        }
    }
}

} // verus!
