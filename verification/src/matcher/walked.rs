//! What a walk through the ways to read a pattern finds is a lower bound.
use vstd::prelude::*;
use crate::matcher::analyze::{
    spec_add_capped, spec_cost, spec_single, spec_skipped, spec_start, spec_walk,
    spec_walk_matches, spec_walk_notations, WalkSetting, WalkState, TRAVERSAL_LIMIT,
};
use crate::matcher::bound::{lemma_one_char, lemma_plain_within_more, plain_within};
use crate::matcher::builder::IbMatcherBuilder;
use crate::matcher::engine::{IbMatcher, lemma_bytes_split, Lang, Rules};
use crate::pinyin::notation::{ASCII_FIRST_LETTER, lemma_select_exact, PinyinNotation};
use crate::pinyin::table::{
    lemma_first_letter, lemma_notation_of_valid, spec_notation, valid_pinyin,
};
use crate::romaji::MIN_LEN;
use crate::unicode::case::mono_lowercase_seq;
use crate::unicode::utf8::{char_len_utf8, is_prefix, Relation, spec_relate, utf8_len};

verus! {

/// Whether `after` is a later state of a walk than `before`: no fewer
/// steps are counted, and no more bytes are found to do.
pub open spec fn follows(before: WalkState, after: WalkState) -> bool {
    before.count <= after.count && after.min_len <= before.min_len
}

/// A walk goes on from its state: see `follows`.
pub proof fn lemma_walk_follows(
    setting: WalkSetting<'_>,
    st: WalkState,
    pi: int,
    depth: usize,
    min_len: usize,
)
    ensures
        follows(st, spec_walk(setting, st, pi, depth, min_len)),
    decreases setting.pattern.len() - pi, 3int, 0int,
{
    if st.count <= TRAVERSAL_LIMIT {
        let counted = WalkState {
            count: (st.count + 1) as usize,
            used: st.used,
            min_chars: st.min_chars,
            min_len: st.min_len,
        };
        if counted.count > TRAVERSAL_LIMIT {
        } else if pi < 0 || pi >= setting.pattern.len() {
        } else {
            match setting.pinyin {
                Some(p) => {
                    lemma_notations_follow(
                        setting,
                        counted,
                        pi,
                        depth,
                        min_len,
                        p.notations.spec_iter(),
                        0,
                        false,
                    );
                },
                None => {},
            }
            let after = match setting.pinyin {
                Some(p) => spec_walk_notations(
                    setting,
                    counted,
                    pi,
                    depth,
                    min_len,
                    p.notations.spec_iter(),
                    0,
                    false,
                ),
                None => (counted, false),
            };
            if after.0.count > TRAVERSAL_LIMIT || after.1 {
            } else {
                lemma_walk_follows(
                    setting,
                    after.0,
                    pi + 1,
                    spec_add_capped(depth, 1),
                    spec_add_capped(min_len, char_len_utf8(setting.pattern[pi]) as usize),
                );
            }
        }
    }
}

/// The readings in the notations go on from the state, and a reading of
/// one character that was seen stays seen.
pub proof fn lemma_notations_follow(
    setting: WalkSetting<'_>,
    st: WalkState,
    pi: int,
    depth: usize,
    min_len: usize,
    notations: Seq<PinyinNotation>,
    i: int,
    any: bool,
)
    ensures
        follows(st, spec_walk_notations(setting, st, pi, depth, min_len, notations, i, any).0),
        any ==> spec_walk_notations(setting, st, pi, depth, min_len, notations, i, any).1,
    decreases setting.pattern.len() - pi, 2int, notations.len() - i,
{
    if i < 0 || i >= notations.len() || setting.pinyin is None {
    } else {
        let items = setting.pinyin->0.data.spec_match_pinyin_partial(
            notations[i],
            setting.pattern.skip(pi),
            setting.partial,
        );
        lemma_matches_follow(setting, st, pi, depth, min_len, notations[i], items, 0, any);
        let after = spec_walk_matches(
            setting,
            st,
            pi,
            depth,
            min_len,
            notations[i],
            items,
            0,
            any,
        );
        if after.0.count > TRAVERSAL_LIMIT {
        } else {
            lemma_notations_follow(
                setting,
                after.0,
                pi,
                depth,
                min_len,
                notations,
                i + 1,
                after.1,
            );
        }
    }
}

/// The readings of one notation go on from the state, and a reading of
/// one character that was seen stays seen.
pub proof fn lemma_matches_follow(
    setting: WalkSetting<'_>,
    st: WalkState,
    pi: int,
    depth: usize,
    min_len: usize,
    notation: PinyinNotation,
    items: Seq<(Seq<char>, bool)>,
    k: int,
    any: bool,
)
    ensures
        follows(
            st,
            spec_walk_matches(setting, st, pi, depth, min_len, notation, items, k, any).0,
        ),
        any ==> spec_walk_matches(setting, st, pi, depth, min_len, notation, items, k, any).1,
    decreases setting.pattern.len() - pi, 1int, items.len() - k,
{
    if k < 0 || k >= items.len() || setting.pinyin is None || pi < 0 || pi
        >= setting.pattern.len() {
    } else {
        let matched_chars = if items[k].1 {
            setting.pattern.len() - pi
        } else {
            items[k].0.len() as int
        };
        if spec_skipped(setting, notation, pi, matched_chars) || matched_chars < 1 || matched_chars
            > setting.pattern.len() - pi {
            lemma_matches_follow(setting, st, pi, depth, min_len, notation, items, k + 1, any);
        } else {
            let single = spec_single(setting, pi, matched_chars);
            let entered = WalkState {
                count: st.count,
                used: st.used.spec_union(notation),
                min_chars: st.min_chars,
                min_len: st.min_len,
            };
            lemma_walk_follows(
                setting,
                entered,
                pi + matched_chars,
                spec_add_capped(depth, 1),
                spec_add_capped(min_len, spec_cost(setting, pi, matched_chars)),
            );
            let next = spec_walk(
                setting,
                entered,
                pi + matched_chars,
                spec_add_capped(depth, 1),
                spec_add_capped(min_len, spec_cost(setting, pi, matched_chars)),
            );
            if next.count > TRAVERSAL_LIMIT {
            } else {
                lemma_matches_follow(
                    setting,
                    next,
                    pi,
                    depth,
                    min_len,
                    notation,
                    items,
                    k + 1,
                    any || single,
                );
            }
        }
    }
}

/// Whether the walk of what is left of the pattern from its `q`-th
/// character on, whatever it starts from, finds a haystack to do that
/// takes no more than `bytes` bytes beyond what it starts from, unless it
/// is given up for its many steps.
pub open spec fn reaches(setting: WalkSetting<'_>, q: int, bytes: nat) -> bool {
    forall|st: WalkState, depth: usize, min_len: usize|
        (#[trigger] spec_walk(setting, st, q, depth, min_len)).count <= TRAVERSAL_LIMIT
            ==> spec_walk(setting, st, q, depth, min_len).min_len <= min_len + bytes
}

/// At the end of the pattern the walk takes down the bytes that it
/// started from.
pub proof fn lemma_reaches_end(setting: WalkSetting<'_>, q: int)
    requires
        q >= setting.pattern.len(),
    ensures
        reaches(setting, q, 0),
{
}

/// The characters of the pattern that a reading stands for: all that is
/// left where the reading goes on beyond the pattern.
pub open spec fn item_chars(setting: WalkSetting<'_>, pi: int, item: (Seq<char>, bool)) -> int {
    if item.1 {
        setting.pattern.len() - pi
    } else {
        item.0.len() as int
    }
}

/// Whether the walk follows a reading of the pattern from `pi` on up.
pub open spec fn item_followed(
    setting: WalkSetting<'_>,
    notation: PinyinNotation,
    pi: int,
    item: (Seq<char>, bool),
) -> bool {
    &&& !spec_skipped(setting, notation, pi, item_chars(setting, pi, item))
    &&& 1 <= item_chars(setting, pi, item) <= setting.pattern.len() - pi
}

/// The bytes that a reading of one character of the pattern stands for.
pub open spec fn single_cost(setting: WalkSetting<'_>, pi: int) -> nat {
    if char_len_utf8(setting.pattern[pi]) < 3 {
        char_len_utf8(setting.pattern[pi])
    } else {
        3
    }
}

/// Where the readings of one notation hold one that the walk follows up,
/// what is found takes no more bytes than that reading and what is left
/// of the pattern after it.
pub proof fn lemma_matches_reach(
    setting: WalkSetting<'_>,
    st: WalkState,
    pi: int,
    depth: usize,
    min_len: usize,
    notation: PinyinNotation,
    items: Seq<(Seq<char>, bool)>,
    k: int,
    any: bool,
    at: int,
    bytes: nat,
)
    requires
        setting.pinyin is Some,
        0 <= pi < setting.pattern.len(),
        0 <= k <= at < items.len(),
        item_followed(setting, notation, pi, items[at]),
        reaches(setting, pi + item_chars(setting, pi, items[at]), bytes),
        spec_walk_matches(setting, st, pi, depth, min_len, notation, items, k, any).0.count
            <= TRAVERSAL_LIMIT,
    ensures
        spec_walk_matches(setting, st, pi, depth, min_len, notation, items, k, any).0.min_len
            <= min_len + spec_cost(setting, pi, item_chars(setting, pi, items[at])) + bytes,
        spec_single(setting, pi, item_chars(setting, pi, items[at])) ==> spec_walk_matches(
            setting,
            st,
            pi,
            depth,
            min_len,
            notation,
            items,
            k,
            any,
        ).1,
    decreases items.len() - k,
{
    let matched_chars = item_chars(setting, pi, items[k]);
    if spec_skipped(setting, notation, pi, matched_chars) || matched_chars < 1 || matched_chars
        > setting.pattern.len() - pi {
        lemma_matches_reach(
            setting,
            st,
            pi,
            depth,
            min_len,
            notation,
            items,
            k + 1,
            any,
            at,
            bytes,
        );
    } else {
        let single = spec_single(setting, pi, matched_chars);
        let entered = WalkState {
            count: st.count,
            used: st.used.spec_union(notation),
            min_chars: st.min_chars,
            min_len: st.min_len,
        };
        let next = spec_walk(
            setting,
            entered,
            pi + matched_chars,
            spec_add_capped(depth, 1),
            spec_add_capped(min_len, spec_cost(setting, pi, matched_chars)),
        );
        if next.count <= TRAVERSAL_LIMIT {
            if k == at {
                lemma_matches_follow(
                    setting,
                    next,
                    pi,
                    depth,
                    min_len,
                    notation,
                    items,
                    k + 1,
                    any || single,
                );
            } else {
                lemma_matches_reach(
                    setting,
                    next,
                    pi,
                    depth,
                    min_len,
                    notation,
                    items,
                    k + 1,
                    any || single,
                    at,
                    bytes,
                );
            }
        }
    }
}

/// Where the readings of one of the notations hold one that the walk
/// follows up, what is found takes no more bytes than that reading and
/// what is left of the pattern after it.
pub proof fn lemma_notations_reach(
    setting: WalkSetting<'_>,
    st: WalkState,
    pi: int,
    depth: usize,
    min_len: usize,
    notations: Seq<PinyinNotation>,
    i: int,
    any: bool,
    of: int,
    at: int,
    bytes: nat,
)
    requires
        setting.pinyin is Some,
        0 <= pi < setting.pattern.len(),
        0 <= i <= of < notations.len(),
        0 <= at < spec_items(setting, notations[of], pi).len(),
        item_followed(setting, notations[of], pi, spec_items(setting, notations[of], pi)[at]),
        reaches(
            setting,
            pi + item_chars(setting, pi, spec_items(setting, notations[of], pi)[at]),
            bytes,
        ),
        spec_walk_notations(setting, st, pi, depth, min_len, notations, i, any).0.count
            <= TRAVERSAL_LIMIT,
    ensures
        spec_walk_notations(setting, st, pi, depth, min_len, notations, i, any).0.min_len
            <= min_len + spec_cost(
            setting,
            pi,
            item_chars(setting, pi, spec_items(setting, notations[of], pi)[at]),
        ) + bytes,
        spec_single(
            setting,
            pi,
            item_chars(setting, pi, spec_items(setting, notations[of], pi)[at]),
        ) ==> spec_walk_notations(setting, st, pi, depth, min_len, notations, i, any).1,
    decreases notations.len() - i,
{
    let items = spec_items(setting, notations[i], pi);
    let after = spec_walk_matches(setting, st, pi, depth, min_len, notations[i], items, 0, any);
    if after.0.count <= TRAVERSAL_LIMIT {
        if i == of {
            lemma_matches_reach(
                setting,
                st,
                pi,
                depth,
                min_len,
                notations[i],
                items,
                0,
                any,
                at,
                bytes,
            );
            lemma_notations_follow(
                setting,
                after.0,
                pi,
                depth,
                min_len,
                notations,
                i + 1,
                after.1,
            );
        } else {
            lemma_notations_reach(
                setting,
                after.0,
                pi,
                depth,
                min_len,
                notations,
                i + 1,
                after.1,
                of,
                at,
                bytes,
            );
        }
    }
}

/// The readings of the pattern from `pi` on in `notation`.
pub open spec fn spec_items(
    setting: WalkSetting<'_>,
    notation: PinyinNotation,
    pi: int,
) -> Seq<(Seq<char>, bool)> {
    setting.pinyin->0.data.spec_match_pinyin_partial(
        notation,
        setting.pattern.skip(pi),
        setting.partial,
    )
}

/// Where a reading of one character of the pattern was seen among the
/// readings of one notation, what is found takes no more bytes than such
/// a reading and what is left of the pattern after that character.
pub proof fn lemma_matches_single(
    setting: WalkSetting<'_>,
    st: WalkState,
    pi: int,
    depth: usize,
    min_len: usize,
    notation: PinyinNotation,
    items: Seq<(Seq<char>, bool)>,
    k: int,
    bytes: nat,
)
    requires
        setting.pinyin is Some,
        0 <= pi < setting.pattern.len(),
        0 <= k,
        reaches(setting, pi + 1, bytes),
        spec_walk_matches(setting, st, pi, depth, min_len, notation, items, k, false).0.count
            <= TRAVERSAL_LIMIT,
        spec_walk_matches(setting, st, pi, depth, min_len, notation, items, k, false).1,
    ensures
        spec_walk_matches(setting, st, pi, depth, min_len, notation, items, k, false).0.min_len
            <= min_len + single_cost(setting, pi) + bytes,
    decreases items.len() - k,
{
    if k < items.len() {
        let matched_chars = item_chars(setting, pi, items[k]);
        if spec_skipped(setting, notation, pi, matched_chars) || matched_chars < 1 || matched_chars
            > setting.pattern.len() - pi {
            lemma_matches_single(setting, st, pi, depth, min_len, notation, items, k + 1, bytes);
        } else {
            let single = spec_single(setting, pi, matched_chars);
            let entered = WalkState {
                count: st.count,
                used: st.used.spec_union(notation),
                min_chars: st.min_chars,
                min_len: st.min_len,
            };
            let next = spec_walk(
                setting,
                entered,
                pi + matched_chars,
                spec_add_capped(depth, 1),
                spec_add_capped(min_len, spec_cost(setting, pi, matched_chars)),
            );
            if next.count <= TRAVERSAL_LIMIT {
                if single {
                    lemma_matches_follow(
                        setting,
                        next,
                        pi,
                        depth,
                        min_len,
                        notation,
                        items,
                        k + 1,
                        true,
                    );
                } else {
                    lemma_matches_single(
                        setting,
                        next,
                        pi,
                        depth,
                        min_len,
                        notation,
                        items,
                        k + 1,
                        bytes,
                    );
                }
            }
        }
    }
}

/// Where a reading of one character of the pattern was seen, what is
/// found takes no more bytes than such a reading and what is left of the
/// pattern after that character.
pub proof fn lemma_notations_single(
    setting: WalkSetting<'_>,
    st: WalkState,
    pi: int,
    depth: usize,
    min_len: usize,
    notations: Seq<PinyinNotation>,
    i: int,
    bytes: nat,
)
    requires
        setting.pinyin is Some,
        0 <= pi < setting.pattern.len(),
        0 <= i,
        reaches(setting, pi + 1, bytes),
        spec_walk_notations(setting, st, pi, depth, min_len, notations, i, false).0.count
            <= TRAVERSAL_LIMIT,
        spec_walk_notations(setting, st, pi, depth, min_len, notations, i, false).1,
    ensures
        spec_walk_notations(setting, st, pi, depth, min_len, notations, i, false).0.min_len
            <= min_len + single_cost(setting, pi) + bytes,
    decreases notations.len() - i,
{
    if i < notations.len() {
        let items = spec_items(setting, notations[i], pi);
        let after = spec_walk_matches(
            setting,
            st,
            pi,
            depth,
            min_len,
            notations[i],
            items,
            0,
            false,
        );
        if after.0.count <= TRAVERSAL_LIMIT {
            if after.1 {
                lemma_matches_single(
                    setting,
                    st,
                    pi,
                    depth,
                    min_len,
                    notations[i],
                    items,
                    0,
                    bytes,
                );
                lemma_notations_follow(
                    setting,
                    after.0,
                    pi,
                    depth,
                    min_len,
                    notations,
                    i + 1,
                    true,
                );
            } else {
                lemma_notations_single(
                    setting,
                    after.0,
                    pi,
                    depth,
                    min_len,
                    notations,
                    i + 1,
                    bytes,
                );
            }
        }
    }
}

/// After a character of the pattern that is taken as itself: where the
/// walk of what is left of the pattern after it reaches `bytes`, the walk
/// from that character on reaches the bytes of the character more.
pub proof fn lemma_reaches_after_char(setting: WalkSetting<'_>, pi: int, bytes: nat)
    requires
        0 <= pi < setting.pattern.len(),
        reaches(setting, pi + 1, bytes),
    ensures
        reaches(setting, pi, char_len_utf8(setting.pattern[pi]) + bytes),
{
    assert forall|st: WalkState, depth: usize, min_len: usize|
        (#[trigger] spec_walk(setting, st, pi, depth, min_len)).count
            <= TRAVERSAL_LIMIT implies spec_walk(setting, st, pi, depth, min_len).min_len
        <= min_len + (char_len_utf8(setting.pattern[pi]) + bytes) by {
        let counted = WalkState {
            count: (st.count + 1) as usize,
            used: st.used,
            min_chars: st.min_chars,
            min_len: st.min_len,
        };
        let after = match setting.pinyin {
            Some(p) => spec_walk_notations(
                setting,
                counted,
                pi,
                depth,
                min_len,
                p.notations.spec_iter(),
                0,
                false,
            ),
            None => (counted, false),
        };
        let found = spec_walk(setting, st, pi, depth, min_len);
        assert(st.count <= TRAVERSAL_LIMIT);
        assert(counted.count <= TRAVERSAL_LIMIT);
        if after.0.count > TRAVERSAL_LIMIT {
            assert(found == after.0);
        } else if after.1 {
            assert(found == after.0);
            lemma_notations_single(
                setting,
                counted,
                pi,
                depth,
                min_len,
                setting.pinyin->0.notations.spec_iter(),
                0,
                bytes,
            );
        } else {
            let next_len = spec_add_capped(min_len, char_len_utf8(setting.pattern[pi]) as usize);
            let next = spec_walk(setting, after.0, pi + 1, spec_add_capped(depth, 1), next_len);
            assert(found == next);
            assert(next.min_len <= next_len + bytes);
        }
    }
}

/// After a reading that the walk follows up: where the walk of what is
/// left of the pattern after the reading reaches `bytes`, the walk from
/// the reading on reaches the bytes of the reading more.
pub proof fn lemma_reaches_after_item(
    setting: WalkSetting<'_>,
    pi: int,
    of: int,
    at: int,
    bytes: nat,
)
    requires
        setting.pinyin is Some,
        0 <= pi < setting.pattern.len(),
        0 <= of < setting.pinyin->0.notations.spec_iter().len(),
        0 <= at < spec_items(setting, setting.pinyin->0.notations.spec_iter()[of], pi).len(),
        item_followed(
            setting,
            setting.pinyin->0.notations.spec_iter()[of],
            pi,
            spec_items(setting, setting.pinyin->0.notations.spec_iter()[of], pi)[at],
        ),
        reaches(
            setting,
            pi + item_chars(
                setting,
                pi,
                spec_items(setting, setting.pinyin->0.notations.spec_iter()[of], pi)[at],
            ),
            bytes,
        ),
    ensures
        reaches(
            setting,
            pi,
            (spec_cost(
                setting,
                pi,
                item_chars(
                    setting,
                    pi,
                    spec_items(setting, setting.pinyin->0.notations.spec_iter()[of], pi)[at],
                ),
            ) + bytes) as nat,
        ),
{
    let notations = setting.pinyin->0.notations.spec_iter();
    let chars = item_chars(setting, pi, spec_items(setting, notations[of], pi)[at]);
    assert forall|st: WalkState, depth: usize, min_len: usize|
        (#[trigger] spec_walk(setting, st, pi, depth, min_len)).count
            <= TRAVERSAL_LIMIT implies spec_walk(setting, st, pi, depth, min_len).min_len
        <= min_len + (spec_cost(setting, pi, chars) + bytes) by {
        let counted = WalkState {
            count: (st.count + 1) as usize,
            used: st.used,
            min_chars: st.min_chars,
            min_len: st.min_len,
        };
        let after = spec_walk_notations(setting, counted, pi, depth, min_len, notations, 0, false);
        if after.0.count <= TRAVERSAL_LIMIT {
            lemma_notations_reach(
                setting,
                counted,
                pi,
                depth,
                min_len,
                notations,
                0,
                false,
                of,
                at,
                bytes,
            );
            if !after.1 {
                lemma_walk_follows(
                    setting,
                    after.0,
                    pi + 1,
                    spec_add_capped(depth, 1),
                    spec_add_capped(min_len, char_len_utf8(setting.pattern[pi]) as usize),
                );
            }
        }
    }
}

/// To reach fewer bytes is to reach more.
pub proof fn lemma_reaches_more(setting: WalkSetting<'_>, q: int, bytes: nat, more: nat)
    requires
        reaches(setting, q, bytes),
        bytes <= more,
    ensures
        reaches(setting, q, more),
{
}

/// Each of the ten notations is among those that a set is walked by.
pub proof fn lemma_declared_complete(n: PinyinNotation)
    requires
        n.is_single(),
    ensures
        PinyinNotation::declared().contains(n),
        forall|i: int, j: int|
            0 <= i < j < PinyinNotation::declared().len() ==> PinyinNotation::declared()[i]
                != PinyinNotation::declared()[j],
{
    let list = PinyinNotation::declared();
    let k: int = if n.0 == 0x8 {
        0
    } else if n.0 == 0x2 {
        1
    } else if n.0 == 0x4 {
        2
    } else if n.0 == 0x1 {
        3
    } else if n.0 == 0x10 {
        4
    } else if n.0 == 0x20 {
        5
    } else if n.0 == 0x40 {
        6
    } else if n.0 == 0x80 {
        7
    } else if n.0 == 0x100 {
        8
    } else {
        9
    };
    assert(list[k] == n);
}

/// How a reading stands to what is left of a pattern is how it stands to
/// what is left of the folded pattern, where the reading is its own
/// folded form and stands to the pattern in some way.
pub proof fn lemma_relate_folded(text: Seq<char>, tail: Seq<char>)
    requires
        mono_lowercase_seq(text) == text,
        !(spec_relate(text, tail) is Mismatch),
    ensures
        spec_relate(text, mono_lowercase_seq(tail)) == spec_relate(text, tail),
{
    let folded = mono_lowercase_seq(tail);
    let k = text.len() as int;
    let n = tail.len() as int;
    if is_prefix(text, tail) {
        assert(folded.subrange(0, k) =~= mono_lowercase_seq(tail.subrange(0, k)));
    } else {
        assert(text.subrange(0, n) == tail);
        assert(folded =~= mono_lowercase_seq(text).subrange(0, n));
        if k == n {
            assert(text.subrange(0, n) == text);
        }
        if is_prefix(text, folded) {
            assert(folded.subrange(0, k) == text);
        }
    }
}

impl<'a> Rules<'a> {
    /// Whether `setting` is what the walk for these rules is given: the
    /// folded pattern and the configuration of pinyin, of which every
    /// notation that is tried is one that is asked for; and every
    /// character of the pattern that is matched as itself is ASCII when it
    /// is folded, or is matched with regard to case and is its own folded
    /// form.
    pub open spec fn walked_by(&self, setting: WalkSetting<'a>) -> bool {
        &&& setting.pattern == self.spec_pattern_lowercase()
        &&& self.romaji_wf()
        &&& self.plain_within(1)
        &&& match self.pinyin {
            Some(p) => {
                &&& setting.pinyin == Some(p.config)
                &&& setting.partial == p.partial_pattern
                &&& p.wf()
                &&& forall|j: int|
                    0 <= j < p.prefix_group.len() ==> p.config.notations.spec_contains(
                        #[trigger] p.prefix_group[j],
                    )
                &&& forall|j: int|
                    0 <= j < p.others.len() ==> p.config.notations.spec_contains(
                        #[trigger] p.others[j],
                    )
            },
            None => true,
        }
    }

    /// Whether the walk reaches `bytes` from the character `pi` of the
    /// pattern on; or, with romaji, `bytes` are as many as there are at
    /// least.
    pub open spec fn covers(&self, setting: WalkSetting<'a>, pi: int, bytes: nat) -> bool {
        (self.romaji is Some && bytes >= MIN_LEN) || reaches(setting, pi, bytes)
    }

    /// The bytes that a match from the character `hi` of `hay` on reads.
    pub open spec fn read_bytes(
        &self,
        hay: Seq<char>,
        hi: int,
        found: Option<crate::matcher::engine::SpecMatch>,
    ) -> nat {
        utf8_len(hay.subrange(hi, found->0.end))
    }

    /// The walk reaches every match: it finds a haystack to do that takes
    /// no more bytes than the match reads.
    pub proof fn lemma_sub_test_reached(
        &self,
        setting: WalkSetting<'a>,
        hay: Seq<char>,
        pi: int,
        hi: int,
        lang: Lang,
    )
        requires
            self.walked_by(setting),
            self.spec_sub_test(hay, pi, hi, lang) is Some,
        ensures
            self.covers(
                setting,
                pi,
                self.read_bytes(hay, hi, self.spec_sub_test(hay, pi, hi, lang)),
            ),
        decreases self.spec_pattern().len() - pi, 4int, 0int,
    {
        let lower = self.spec_pattern_lowercase();
        let m = self.spec_sub_test(hay, pi, hi, lang)->0;
        self.lemma_sub_test_fits(hay, pi, hi, lang);
        lemma_one_char(hay, hi);
        lemma_one_char(lower, pi);
        lemma_bytes_split(hay, hi, hi + 1, m.end);
        let bh = char_len_utf8(hay[hi]);
        let bp = char_len_utf8(lower[pi]);
        if self.plain_matches(hay[hi], pi) {
            assert(bp <= bh) by {
                reveal(plain_within);
            }
            if pi + 1 == self.spec_pattern().len() {
                lemma_reaches_end(setting, pi + 1);
                lemma_reaches_after_char(setting, pi, 0);
                lemma_reaches_more(setting, pi, bp, bh);
                assert(hay.subrange(hi + 1, hi + 1) =~= Seq::<char>::empty());
            } else {
                let rest = self.spec_sub_test(hay, pi + 1, hi + 1, Lang::Any);
                self.lemma_sub_test_reached(setting, hay, pi + 1, hi + 1, Lang::Any);
                let more = self.read_bytes(hay, hi + 1, rest);
                if reaches(setting, pi + 1, more) {
                    lemma_reaches_after_char(setting, pi, more);
                    lemma_reaches_more(setting, pi, bp + more, bh + more);
                }
            }
        } else {
            if self.spec_romaji() is None || lang == Lang::Pinyin || self.spec_try_romaji(
                hay,
                pi,
                hi,
                self.spec_romaji()->0.config.romanizer.spec_romanize(hay.skip(hi)),
                0,
            ) is None {
                let table = self.spec_pinyin()->0.config.data.table();
                self.spec_pinyin()->0.config.data.lemma_wf();
                table.lemma_readings_valid(hay[hi]);
                if !(crate::pinyin::table::MAX_RANGE_START <= hay[hi] as u32) {
                    table.lemma_no_readings_outside_range(hay[hi]);
                }
                self.lemma_try_readings_reached(
                    setting,
                    hay,
                    pi,
                    hi,
                    table.spec_readings(hay[hi]),
                    0,
                );
            }
        }
    }

    proof fn lemma_try_readings_reached(
        &self,
        setting: WalkSetting<'a>,
        hay: Seq<char>,
        pi: int,
        hi: int,
        readings: Seq<u16>,
        k: int,
    )
        requires
            self.walked_by(setting),
            self.spec_pinyin() is Some,
            0 <= pi < self.spec_pattern().len(),
            0 <= hi < hay.len(),
            char_len_utf8(hay[hi]) >= 3,
            forall|q: int|
                0 <= q < readings.len() ==> (#[trigger] readings[q])
                    < self.spec_pinyin()->0.config.data.table().count(),
            self.spec_try_readings(hay, pi, hi + 1, readings, k) is Some,
        ensures
            self.covers(
                setting,
                pi,
                self.read_bytes(hay, hi, self.spec_try_readings(hay, pi, hi + 1, readings, k)),
            ),
        decreases self.spec_pattern().len() - pi, 3int, readings.len() - k,
    {
        let p = self.spec_pinyin()->0;
        match self.spec_try_reading(hay, pi, hi + 1, readings[k]) {
            Some(m) => {
                if self.spec_try_group(hay, pi, hi + 1, readings[k], p.prefix_group, 0, true)
                    is Some {
                    self.lemma_try_group_reached(
                        setting,
                        hay,
                        pi,
                        hi,
                        readings[k],
                        p.prefix_group,
                        0,
                        true,
                    );
                } else {
                    self.lemma_try_group_reached(
                        setting,
                        hay,
                        pi,
                        hi,
                        readings[k],
                        p.others,
                        0,
                        false,
                    );
                }
            },
            None => {
                self.lemma_try_readings_reached(setting, hay, pi, hi, readings, k + 1);
            },
        }
    }

    proof fn lemma_try_group_reached(
        &self,
        setting: WalkSetting<'a>,
        hay: Seq<char>,
        pi: int,
        hi: int,
        reading: u16,
        group: Seq<PinyinNotation>,
        j: int,
        breaks: bool,
    )
        requires
            self.walked_by(setting),
            self.spec_pinyin() is Some,
            0 <= pi < self.spec_pattern().len(),
            0 <= hi < hay.len(),
            char_len_utf8(hay[hi]) >= 3,
            reading < self.spec_pinyin()->0.config.data.table().count(),
            forall|q: int|
                0 <= q < group.len() ==> (#[trigger] group[q]).is_single()
                    && self.spec_pinyin()->0.config.notations.spec_contains(group[q]),
            self.spec_try_group(hay, pi, hi + 1, reading, group, j, breaks) is Some,
        ensures
            self.covers(
                setting,
                pi,
                self.read_bytes(
                    hay,
                    hi,
                    self.spec_try_group(hay, pi, hi + 1, reading, group, j, breaks),
                ),
            ),
        decreases self.spec_pattern().len() - pi, 1int, group.len() - j,
    {
        let table = self.spec_pinyin()->0.config.data.table();
        self.spec_pinyin()->0.config.data.lemma_wf();
        assert(valid_pinyin(table.unicode(reading as int)));
        lemma_notation_of_valid(group[j], table.unicode(reading as int));
        let text = spec_notation(group[j], table.unicode(reading as int))->0;
        let (matched, found) = self.spec_step(hay, pi, hi + 1, text, Lang::Pinyin);
        if found is Some {
            self.lemma_step_reached(setting, hay, pi, hi, reading, group[j]);
        } else {
            self.lemma_try_group_reached(setting, hay, pi, hi, reading, group, j + 1, breaks);
        }
    }

    proof fn lemma_step_reached(
        &self,
        setting: WalkSetting<'a>,
        hay: Seq<char>,
        pi: int,
        hi: int,
        reading: u16,
        notation: PinyinNotation,
    )
        requires
            self.walked_by(setting),
            self.spec_pinyin() is Some,
            0 <= pi < self.spec_pattern().len(),
            0 <= hi < hay.len(),
            char_len_utf8(hay[hi]) >= 3,
            reading < self.spec_pinyin()->0.config.data.table().count(),
            notation.is_single(),
            self.spec_pinyin()->0.config.notations.spec_contains(notation),
            self.spec_step(
                hay,
                pi,
                hi + 1,
                spec_notation(
                    notation,
                    self.spec_pinyin()->0.config.data.table().unicode(reading as int),
                )->0,
                Lang::Pinyin,
            ).1 is Some,
        ensures
            self.covers(
                setting,
                pi,
                self.read_bytes(
                    hay,
                    hi,
                    self.spec_step(
                        hay,
                        pi,
                        hi + 1,
                        spec_notation(
                            notation,
                            self.spec_pinyin()->0.config.data.table().unicode(reading as int),
                        )->0,
                        Lang::Pinyin,
                    ).1,
                ),
            ),
        decreases self.spec_pattern().len() - pi, 0int, 0int,
    {
        let p = self.spec_pinyin()->0;
        let data = p.config.data;
        let asked = p.config.notations;
        let table = data.table();
        let unicode = table.unicode(reading as int);
        let lower = self.spec_pattern_lowercase();
        let n = lower.len() as int;
        let first = PinyinNotation(ASCII_FIRST_LETTER);
        data.lemma_wf();
        assert(valid_pinyin(unicode));
        lemma_notation_of_valid(notation, unicode);
        lemma_notation_of_valid(first, unicode);
        lemma_first_letter(unicode);
        let text = spec_notation(notation, unicode)->0;
        let found = self.spec_step(hay, pi, hi + 1, text, Lang::Pinyin).1;
        let m = found->0;
        let tail = self.tail(Lang::Pinyin, pi);
        let folded = setting.pattern.skip(pi);
        let relation = spec_relate(text, tail);
        assert(self.lang_case_insensitive(Lang::Pinyin) ==> tail =~= folded);
        assert(!self.lang_case_insensitive(Lang::Pinyin) ==> mono_lowercase_seq(tail) =~= folded);
        if !self.lang_case_insensitive(Lang::Pinyin) {
            lemma_relate_folded(text, tail);
        }
        assert(spec_relate(text, folded) == relation);
        let partial = relation is Partial;
        let chars = if partial {
            n - pi
        } else {
            text.len() as int
        };
        let skipped = spec_skipped(setting, notation, pi, chars);
        let walked = if skipped {
            first
        } else {
            notation
        };
        let item = if skipped {
            (spec_notation(first, unicode)->0, false)
        } else {
            (text, partial)
        };
        assert(text[0] == folded[0]) by {
            if partial {
                assert(text.subrange(0, folded.len() as int)[0] == folded[0]);
            } else {
                assert(folded.subrange(0, text.len() as int)[0] == text[0]);
            }
        }
        if skipped {
            assert(item.0 =~= seq![text[0]]);
            assert(folded.subrange(0, 1) =~= seq![folded[0]]);
            assert(is_prefix(item.0, folded));
            let b = asked.0;
            assert(b & 0x1 == 0x1 ==> b & 0x1 == 0x1) by (bit_vector);
        }
        assert(item_chars(setting, pi, item) == chars);
        assert(asked.spec_contains(walked));
        lemma_declared_complete(walked);
        lemma_select_exact(asked, PinyinNotation::declared());
        let notations = asked.spec_iter();
        assert(notations.contains(walked));
        let of = choose|of: int| 0 <= of < notations.len() && notations[of] == walked;
        data.lemma_match_complete(walked, folded, setting.partial);
        assert(data.spec_strings(walked)[reading as int] == item.0);
        let items = spec_items(setting, walked, pi);
        assert(items.contains(item));
        let at = choose|at: int| 0 <= at < items.len() && items[at] == item;
        assert(item_followed(setting, walked, pi, items[at]));
        let cost = spec_cost(setting, pi, chars);
        lemma_one_char(hay, hi);
        let bh = char_len_utf8(hay[hi]);
        match relation {
            Relation::Prefix => {
                let next = self.next_lang(Lang::Pinyin);
                let rest = self.spec_sub_test(hay, pi + chars, hi + 1, next);
                self.lemma_sub_test_reached(setting, hay, pi + chars, hi + 1, next);
                self.lemma_sub_test_fits(hay, pi + chars, hi + 1, next);
                lemma_bytes_split(hay, hi, hi + 1, m.end);
                let more = self.read_bytes(hay, hi + 1, rest);
                if reaches(setting, pi + chars, more) {
                    lemma_reaches_after_item(setting, pi, of, at, more);
                    lemma_reaches_more(setting, pi, (cost + more) as nat, bh + more);
                }
            },
            _ => {
                lemma_reaches_end(setting, pi + chars);
                lemma_reaches_after_item(setting, pi, of, at, 0);
                lemma_reaches_more(setting, pi, cost as nat, bh);
            },
        }
    }
}

impl<'p, 'a> IbMatcherBuilder<'p, 'a> {
    /// Of a matcher that is built with a walk through the ways to read the
    /// pattern that is not given up, and of a pattern of which every
    /// character that is matched as itself is ASCII when it is folded, or
    /// is matched with regard to case and is its own folded form: where
    /// the pattern is matched from a character of a haystack on, no fewer
    /// bytes than `min_haystack_len` are left from there.
    pub proof fn lemma_walk_is_bound(&self, m: IbMatcher<'a>, hay: Seq<char>, i: int)
        requires
            self.builds(m),
            self.spec_traversal(),
            self.spec_analysis().count <= TRAVERSAL_LIMIT,
            self.spec_rules().plain_within(1),
            m.spec_sub_test(hay, 0, i, Lang::Any) is Some,
        ensures
            utf8_len(hay.skip(i)) >= m.spec_min_haystack_len(),
    {
        let rules = m.rules();
        let lower = mono_lowercase_seq(self.pattern@);
        let setting = WalkSetting {
            pattern: lower,
            pinyin: self.spec_pinyin(),
            partial: match self.spec_pinyin() {
                Some(p) => self.is_pattern_partial && p.allow_partial_pattern,
                None => false,
            },
        };
        let start = spec_start(self.spec_romaji() is Some);
        self.lemma_tried_within(m);
        rules.lemma_sub_test_reached(setting, hay, 0, i, Lang::Any);
        rules.lemma_sub_test_fits(hay, 0, i, Lang::Any);
        let found = rules.spec_sub_test(hay, 0, i, Lang::Any)->0;
        lemma_bytes_split(hay, i, found.end, hay.len() as int);
        assert(hay.subrange(i, hay.len() as int) == hay.skip(i));
        lemma_walk_follows(setting, start, 0, 0, 0);
    }
}

impl<'p, 'a> IbMatcherBuilder<'p, 'a> {
    /// Of every matcher that is built, `min_haystack_len` is a lower
    /// bound: where the pattern is matched from a character of a haystack
    /// on, no fewer bytes are left from there. No match is lost to the
    /// test of the length.
    pub proof fn lemma_min_len_is_bound(&self, m: IbMatcher<'a>, hay: Seq<char>, i: int)
        requires
            self.builds(m),
            utf8_len(mono_lowercase_seq(self.pattern@)) <= usize::MAX,
            m.spec_sub_test(hay, 0, i, Lang::Any) is Some,
        ensures
            utf8_len(hay.skip(i)) >= m.spec_min_haystack_len(),
    {
        if plain_within(self.pattern@, self.spec_plain(), 1) {
            if self.spec_traversal() && self.spec_analysis().count <= TRAVERSAL_LIMIT {
                self.lemma_walk_is_bound(m, hay, i);
            } else {
                lemma_plain_within_more(self.pattern@, self.spec_plain(), 1, self.spec_unit());
                self.lemma_estimate_is_bound(m, hay, i);
            }
        } else {
            self.lemma_chars_are_bound(m, hay, i);
        }
    }
}

} // verus!
