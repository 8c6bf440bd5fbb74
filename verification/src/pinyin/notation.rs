//! The set of pinyin notations.
use vstd::prelude::*;

verus! {

/// A set of pinyin notations, one bit each.
///
/// - All pinyin notations are in lower case.
/// - All pinyin notations are no more than 7 bytes long.
#[derive(Clone, Copy, PartialEq, Eq, Structural, Debug)]
pub struct PinyinNotation(pub u32);

/// The bits of the six double-letter schemes.
pub const DILETTER_BITS: u32 = 0x3F0;

/// The bits of all ten notations.
pub const ALL_BITS: u32 = 0x3FF;

/// e.g. "pīn", "yīn"
pub const UNICODE: u32 = 0x8;

/// Full pinyin without tones, e.g. "pin", "yin"
pub const ASCII: u32 = 0x2;

/// Full pinyin followed by the tone digit in `1..=5`, e.g. "pin1", "yin1"
pub const ASCII_TONE: u32 = 0x4;

/// The first letter of the full pinyin, e.g. "p", "y"
pub const ASCII_FIRST_LETTER: u32 = 0x1;

/// The double-letter scheme of Zhineng ABC
pub const DILETTER_ABC: u32 = 0x10;

/// The double-letter scheme of Pinyin Jiajia
pub const DILETTER_JIAJIA: u32 = 0x20;

/// The double-letter scheme of Microsoft Pinyin
pub const DILETTER_MICROSOFT: u32 = 0x40;

/// The double-letter scheme of Thunisoft (Ziguang)
pub const DILETTER_THUNISOFT: u32 = 0x80;

/// The double-letter scheme of Xiaohe
pub const DILETTER_XIAOHE: u32 = 0x100;

/// The double-letter scheme of Ziranma
pub const DILETTER_ZRM: u32 = 0x200;

impl PinyinNotation {
    /// e.g. "pīn", "yīn"
    pub fn unicode() -> (r: PinyinNotation)
        ensures
            r == PinyinNotation(UNICODE),
    {
        PinyinNotation(UNICODE)
    }

    /// Full pinyin without tones, e.g. "pin", "yin"
    pub fn ascii() -> (r: PinyinNotation)
        ensures
            r == PinyinNotation(ASCII),
    {
        PinyinNotation(ASCII)
    }

    /// Full pinyin followed by the tone digit in `1..=5`, e.g. "pin1", "yin1"
    pub fn ascii_tone() -> (r: PinyinNotation)
        ensures
            r == PinyinNotation(ASCII_TONE),
    {
        PinyinNotation(ASCII_TONE)
    }

    /// The first letter of the full pinyin, e.g. "p", "y"
    pub fn ascii_first_letter() -> (r: PinyinNotation)
        ensures
            r == PinyinNotation(ASCII_FIRST_LETTER),
    {
        PinyinNotation(ASCII_FIRST_LETTER)
    }

    /// The double-letter scheme of Zhineng ABC
    pub fn diletter_abc() -> (r: PinyinNotation)
        ensures
            r == PinyinNotation(DILETTER_ABC),
    {
        PinyinNotation(DILETTER_ABC)
    }

    /// The double-letter scheme of Pinyin Jiajia
    pub fn diletter_jiajia() -> (r: PinyinNotation)
        ensures
            r == PinyinNotation(DILETTER_JIAJIA),
    {
        PinyinNotation(DILETTER_JIAJIA)
    }

    /// The double-letter scheme of Microsoft Pinyin
    pub fn diletter_microsoft() -> (r: PinyinNotation)
        ensures
            r == PinyinNotation(DILETTER_MICROSOFT),
    {
        PinyinNotation(DILETTER_MICROSOFT)
    }

    /// The double-letter scheme of Thunisoft (Ziguang)
    pub fn diletter_thunisoft() -> (r: PinyinNotation)
        ensures
            r == PinyinNotation(DILETTER_THUNISOFT),
    {
        PinyinNotation(DILETTER_THUNISOFT)
    }

    /// The double-letter scheme of Xiaohe
    pub fn diletter_xiaohe() -> (r: PinyinNotation)
        ensures
            r == PinyinNotation(DILETTER_XIAOHE),
    {
        PinyinNotation(DILETTER_XIAOHE)
    }

    /// The double-letter scheme of Ziranma
    pub fn diletter_zrm() -> (r: PinyinNotation)
        ensures
            r == PinyinNotation(DILETTER_ZRM),
    {
        PinyinNotation(DILETTER_ZRM)
    }

    /// Whether the set holds every notation of `other`.
    pub open spec fn spec_contains(&self, other: PinyinNotation) -> bool {
        self.0 & other.0 == other.0
    }

    /// Whether the set holds a notation of `other`.
    pub open spec fn spec_intersects(&self, other: PinyinNotation) -> bool {
        self.0 & other.0 != 0
    }

    /// The notations of the one set and of the other.
    pub open spec fn spec_union(self, other: PinyinNotation) -> PinyinNotation {
        PinyinNotation(self.0 | other.0)
    }

    /// Whether the set is one of the ten notations.
    pub open spec fn is_single(&self) -> bool {
        ||| self.0 == 0x1
        ||| self.0 == 0x2
        ||| self.0 == 0x4
        ||| self.0 == 0x8
        ||| self.0 == 0x10
        ||| self.0 == 0x20
        ||| self.0 == 0x40
        ||| self.0 == 0x80
        ||| self.0 == 0x100
        ||| self.0 == 0x200
    }

    /// The empty set.
    pub fn empty() -> (r: PinyinNotation)
        ensures
            r.0 == 0,
    {
        PinyinNotation(0)
    }

    /// The set of all ten notations.
    pub fn all() -> (r: PinyinNotation)
        ensures
            r.0 == ALL_BITS,
    {
        PinyinNotation(ALL_BITS)
    }

    pub fn bits(&self) -> (r: u32)
        ensures
            r == self.0,
    {
        self.0
    }

    /// The set with the given bits; bits that name no notation are dropped.
    pub fn from_bits_truncate(bits: u32) -> (r: PinyinNotation)
        ensures
            r.0 == bits & ALL_BITS,
    {
        PinyinNotation(bits & ALL_BITS)
    }

    pub fn is_empty(&self) -> (r: bool)
        ensures
            r == (self.0 == 0),
    {
        self.0 == 0
    }

    #[verifier::when_used_as_spec(spec_contains)]
    pub fn contains(&self, other: PinyinNotation) -> (r: bool)
        ensures
            r == self.spec_contains(other),
    {
        self.0 & other.0 == other.0
    }

    #[verifier::when_used_as_spec(spec_intersects)]
    pub fn intersects(&self, other: PinyinNotation) -> (r: bool)
        ensures
            r == self.spec_intersects(other),
    {
        self.0 & other.0 != 0
    }

    #[verifier::when_used_as_spec(spec_union)]
    pub fn union(self, other: PinyinNotation) -> (r: PinyinNotation)
        ensures
            r == self.spec_union(other),
    {
        PinyinNotation(self.0 | other.0)
    }

    pub fn intersection(self, other: PinyinNotation) -> (r: PinyinNotation)
        ensures
            r.0 == self.0 & other.0,
    {
        PinyinNotation(self.0 & other.0)
    }

    pub fn difference(self, other: PinyinNotation) -> (r: PinyinNotation)
        ensures
            r.0 == self.0 & !other.0,
    {
        PinyinNotation(self.0 & !other.0)
    }

    /// Whether the set holds one of the six double-letter schemes.
    pub open spec fn spec_contains_diletter(&self) -> bool {
        self.0 & DILETTER_BITS != 0
    }

    /// Whether the set holds one of the six double-letter schemes.
    #[verifier::when_used_as_spec(spec_contains_diletter)]
    pub fn contains_diletter(&self) -> (r: bool)
        ensures
            r == self.spec_contains_diletter(),
    {
        self.0 & DILETTER_BITS != 0
    }

    /// The longest that a string of one of the notations in the set can be,
    /// in bytes: 7 with `Unicode` or `AsciiTone`, else 6 with `Ascii`, else 2
    /// with a double-letter scheme, else 1 with `AsciiFirstLetter`.
    pub open spec fn spec_max_len(&self) -> Option<usize> {
        if self.0 & 0xC != 0 {
            Some(7usize)
        } else if self.0 & 0x2 != 0 {
            Some(6usize)
        } else if self.0 & DILETTER_BITS != 0 {
            Some(2usize)
        } else if self.0 & 0x1 != 0 {
            Some(1usize)
        } else {
            None
        }
    }

    /// The longest that a string of one of the notations in the set can
    /// be, in bytes; `None` if the set holds no notation.
    #[verifier::when_used_as_spec(spec_max_len)]
    pub fn max_len(&self) -> (r: Option<usize>)
        ensures
            r == self.spec_max_len(),
    {
        proof {
            let b = self.0;
            assert((b & 0xC != 0) == (b & 0x8 != 0 || b & 0x4 != 0)) by (bit_vector);
            assert((b & 0x2 == 0x2) == (b & 0x2 != 0)) by (bit_vector);
            assert((b & 0x1 == 0x1) == (b & 0x1 != 0)) by (bit_vector);
        }
        if self.intersects(PinyinNotation(0xC)) {
            return Some(7);
        }
        if self.contains(PinyinNotation(ASCII)) {
            return Some(6);
        }
        if self.contains_diletter() {
            return Some(2);
        }
        if self.contains(PinyinNotation(ASCII_FIRST_LETTER)) {
            return Some(1);
        }
        None
    }

    /// The ten notations in the order in which a set is walked.
    pub open spec fn declared() -> Seq<PinyinNotation> {
        seq![
            PinyinNotation(UNICODE),
            PinyinNotation(ASCII),
            PinyinNotation(ASCII_TONE),
            PinyinNotation(ASCII_FIRST_LETTER),
            PinyinNotation(DILETTER_ABC),
            PinyinNotation(DILETTER_JIAJIA),
            PinyinNotation(DILETTER_MICROSOFT),
            PinyinNotation(DILETTER_THUNISOFT),
            PinyinNotation(DILETTER_XIAOHE),
            PinyinNotation(DILETTER_ZRM),
        ]
    }

    /// The notations of `list` that the set holds, in the order of `list`.
    pub open spec fn spec_select(&self, list: Seq<PinyinNotation>) -> Seq<PinyinNotation>
        decreases list.len(),
    {
        if list.len() == 0 {
            Seq::empty()
        } else {
            let rest = self.spec_select(list.drop_last());
            if self.spec_contains(list.last()) {
                rest.push(list.last())
            } else {
                rest
            }
        }
    }

    /// The notations of `list` that the set holds, in the order of `list`.
    pub fn select(&self, list: &[PinyinNotation]) -> (r: Vec<PinyinNotation>)
        ensures
            r@ == self.spec_select(list@),
    {
        let mut out: Vec<PinyinNotation> = Vec::new();
        let mut i: usize = 0;
        while i < list.len()
            invariant
                i <= list.len(),
                out@ == self.spec_select(list@.subrange(0, i as int)),
            decreases list.len() - i,
        {
            proof {
                let next = list@.subrange(0, i as int + 1);
                assert(next.drop_last() == list@.subrange(0, i as int));
                assert(next.last() == list@[i as int]);
            }
            if self.contains(list[i]) {
                out.push(list[i]);
            }
            i = i + 1;
        }
        proof {
            assert(list@.subrange(0, i as int) == list@);
        }
        out
    }

    /// The notations of the set, as they are walked.
    pub open spec fn spec_iter(&self) -> Seq<PinyinNotation> {
        self.spec_select(Self::declared())
    }

    /// The notations of the set, one value each, in the order `Unicode`,
    /// `Ascii`, `AsciiTone`, `AsciiFirstLetter`, then the six double-letter
    /// schemes.
    pub fn iter(&self) -> (r: Vec<PinyinNotation>)
        ensures
            r@ == self.spec_iter(),
    {
        let declared: [PinyinNotation; 10] = [
            PinyinNotation(UNICODE),
            PinyinNotation(ASCII),
            PinyinNotation(ASCII_TONE),
            PinyinNotation(ASCII_FIRST_LETTER),
            PinyinNotation(DILETTER_ABC),
            PinyinNotation(DILETTER_JIAJIA),
            PinyinNotation(DILETTER_MICROSOFT),
            PinyinNotation(DILETTER_THUNISOFT),
            PinyinNotation(DILETTER_XIAOHE),
            PinyinNotation(DILETTER_ZRM),
        ];
        assert(declared@ =~= Self::declared());
        self.select(declared.as_slice())
    }
}

/// From a list that holds nothing twice, `spec_select` yields the
/// notations of the list that the set holds, none of them twice.
pub proof fn lemma_select_exact(set: PinyinNotation, list: Seq<PinyinNotation>)
    requires
        forall|i: int, j: int| 0 <= i < j < list.len() ==> list[i] != list[j],
    ensures
        forall|n: PinyinNotation| #[trigger]
            set.spec_select(list).contains(n) <==> list.contains(n) && set.spec_contains(n),
        forall|i: int, j: int|
            0 <= i < j < set.spec_select(list).len() ==> set.spec_select(list)[i]
                != set.spec_select(list)[j],
    decreases list.len(),
{
    let all = set.spec_select(list);
    if list.len() > 0 {
        let before = list.drop_last();
        let rest = set.spec_select(before);
        let last = list.last();
        lemma_select_exact(set, before);
        assert forall|n: PinyinNotation| #[trigger]
            all.contains(n) <==> list.contains(n) && set.spec_contains(n) by {
            assert(rest.contains(n) <==> before.contains(n) && set.spec_contains(n));
            if all.contains(n) {
                let k = choose|k: int| 0 <= k < all.len() && all[k] == n;
                if k < rest.len() {
                    assert(rest[k] == n);
                    assert(rest.contains(n));
                    let i = choose|i: int| 0 <= i < before.len() && before[i] == n;
                    assert(list[i] == n);
                } else {
                    assert(list[list.len() - 1] == n);
                }
            }
            if list.contains(n) && set.spec_contains(n) {
                let i = choose|i: int| 0 <= i < list.len() && list[i] == n;
                if i < before.len() {
                    assert(before[i] == n);
                    assert(before.contains(n));
                    let k = choose|k: int| 0 <= k < rest.len() && rest[k] == n;
                    assert(all[k] == n);
                } else {
                    assert(all[rest.len() as int] == n);
                }
            }
        }
        assert forall|i: int, j: int| 0 <= i < j < all.len() implies all[i] != all[j] by {
            if j == rest.len() {
                assert(rest[i] == all[i]);
                assert(rest.contains(all[i]));
                let q = choose|q: int| 0 <= q < before.len() && before[q] == all[i];
                assert(list[q] != list[list.len() - 1]);
            } else {
                assert(rest[i] == all[i] && rest[j] == all[j]);
            }
        }
    }
}

/// What `spec_select` yields is drawn from the list and held by the set.
pub proof fn lemma_select_members(set: PinyinNotation, list: Seq<PinyinNotation>)
    ensures
        forall|i: int|
            0 <= i < set.spec_select(list).len() ==> {
                &&& set.spec_contains(#[trigger] set.spec_select(list)[i])
                &&& list.contains(set.spec_select(list)[i])
            },
    decreases list.len(),
{
    if list.len() > 0 {
        lemma_select_members(set, list.drop_last());
        let rest = set.spec_select(list.drop_last());
        assert forall|i: int| 0 <= i < set.spec_select(list).len() implies {
            &&& set.spec_contains(#[trigger] set.spec_select(list)[i])
            &&& list.contains(set.spec_select(list)[i])
        } by {
            if i < rest.len() {
                let k = choose|k: int| 0 <= k < list.drop_last().len()
                    && list.drop_last()[k] == rest[i];
                assert(list[k] == rest[i]);
            } else {
                assert(list[list.len() - 1] == list.last());
            }
        }
    }
}

impl core::ops::BitOr for PinyinNotation {
    type Output = PinyinNotation;

    fn bitor(self, rhs: PinyinNotation) -> (r: PinyinNotation) {
        PinyinNotation(self.0 | rhs.0)
    }
}

impl vstd::std_specs::ops::BitOrSpecImpl for PinyinNotation {
    open spec fn obeys_bitor_spec() -> bool {
        true
    }

    open spec fn bitor_req(self, rhs: PinyinNotation) -> bool {
        true
    }

    open spec fn bitor_spec(self, rhs: PinyinNotation) -> PinyinNotation {
        self.spec_union(rhs)
    }
}

/// A notation of a set is no longer than the set's longest.
pub proof fn lemma_max_len_of_member(set: PinyinNotation, n: PinyinNotation)
    requires
        n.is_single(),
        set.spec_contains(n),
    ensures
        set.spec_max_len() is Some,
        n.spec_max_len() is Some,
        n.spec_max_len()->0 <= set.spec_max_len()->0,
{
    let s = set.0;
    let b = n.0;
    assert(s & b == b && (b == 0x1 || b == 0x2 || b == 0x4 || b == 0x8 || b == 0x10 || b == 0x20
        || b == 0x40 || b == 0x80 || b == 0x100 || b == 0x200) ==> {
        &&& (b & 0xC != 0 ==> s & 0xC != 0)
        &&& (b & 0x2 != 0 ==> s & 0x2 != 0)
        &&& (b & 0x3F0 != 0 ==> s & 0x3F0 != 0)
        &&& (b & 0x1 != 0 ==> s & 0x1 != 0)
        &&& (b & 0xC != 0 || b & 0x2 != 0 || b & 0x3F0 != 0 || b & 0x1 != 0)
    }) by (bit_vector);
}

} // verus!
