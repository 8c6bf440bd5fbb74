//! Lengths of characters and character sequences in UTF-8 bytes.
use vstd::prelude::*;
use vstd::utf8::*;

verus! {

/// The number of bytes that `c` takes in UTF-8.
pub open spec fn char_len_utf8(c: char) -> nat {
    if (c as u32) < 0x80 {
        1
    } else if (c as u32) < 0x800 {
        2
    } else if (c as u32) < 0x10000 {
        3
    } else {
        4
    }
}

/// The number of bytes that the sequence `s` takes in UTF-8.
pub open spec fn utf8_len(s: Seq<char>) -> nat
    decreases s.len(),
{
    if s.len() == 0 {
        0
    } else {
        char_len_utf8(s[0]) + utf8_len(s.drop_first())
    }
}

/// Whether `p` is a prefix of `s`.
pub open spec fn is_prefix(p: Seq<char>, s: Seq<char>) -> bool {
    p.len() <= s.len() && s.subrange(0, p.len() as int) == p
}

/// The bytes of two sequences, one after the other, are the bytes of the
/// one and of the other.
pub proof fn lemma_utf8_len_concat(a: Seq<char>, b: Seq<char>)
    ensures
        utf8_len(a + b) == utf8_len(a) + utf8_len(b),
    decreases a.len(),
{
    if a.len() == 0 {
        assert(a + b == b);
    } else {
        assert((a + b).drop_first() == a.drop_first() + b);
        lemma_utf8_len_concat(a.drop_first(), b);
    }
}

/// One more character adds its bytes.
pub proof fn lemma_utf8_len_push(a: Seq<char>, c: char)
    ensures
        utf8_len(a.push(c)) == utf8_len(a) + char_len_utf8(c),
{
    assert(a.push(c) == a + seq![c]);
    lemma_utf8_len_concat(a, seq![c]);
    assert(seq![c].drop_first() == Seq::<char>::empty());
    assert(utf8_len(seq![c]) == char_len_utf8(c) + utf8_len(seq![c].drop_first()));
}

/// A sequence takes at least one byte and at most four bytes per character.
pub proof fn lemma_utf8_len_bounds(s: Seq<char>)
    ensures
        s.len() <= utf8_len(s) <= 4 * s.len(),
    decreases s.len(),
{
    if s.len() > 0 {
        lemma_utf8_len_bounds(s.drop_first());
    }
}

/// Splitting a sequence splits its length in bytes.
pub proof fn lemma_utf8_len_split(s: Seq<char>, i: int)
    requires
        0 <= i <= s.len(),
    ensures
        utf8_len(s) == utf8_len(s.subrange(0, i)) + utf8_len(s.subrange(i, s.len() as int)),
{
    assert(s == s.subrange(0, i) + s.subrange(i, s.len() as int));
    lemma_utf8_len_concat(s.subrange(0, i), s.subrange(i, s.len() as int));
}

/// A longer prefix takes more bytes.
pub proof fn lemma_utf8_len_monotonic(s: Seq<char>, i: int, j: int)
    requires
        0 <= i <= j <= s.len(),
    ensures
        utf8_len(s.subrange(0, i)) + (j - i) <= utf8_len(s.subrange(0, j)),
{
    let t = s.subrange(0, j);
    lemma_utf8_len_split(t, i);
    assert(t.subrange(0, i) == s.subrange(0, i));
    lemma_utf8_len_bounds(t.subrange(i, j));
}

/// `utf8_len` is the length of the UTF-8 encoding.
pub proof fn lemma_utf8_len_is_encoded_len(s: Seq<char>)
    ensures
        utf8_len(s) == encode_utf8(s).len(),
    decreases s.len(),
{
    if s.len() > 0 {
        char_is_scalar(s[0]);
        lemma_utf8_len_is_encoded_len(s.drop_first());
    }
}

/// The number of bytes that `c` takes in UTF-8.
pub fn len_utf8(c: char) -> (n: usize)
    ensures
        n == char_len_utf8(c),
        1 <= n <= 4,
{
    let v: u32 = c as u32;
    if v < 0x80 {
        1
    } else if v < 0x800 {
        2
    } else if v < 0x10000 {
        3
    } else {
        4
    }
}

/// Appends one character with `String::push`.
#[verifier::external_body]
pub(crate) fn string_push(s: &mut String, c: char)
    ensures
        final(s)@ == old(s)@.push(c),
{
    s.push(c)
}

/// The string of the characters `s[from..to]`.
pub fn string_of(s: &[char], from: usize, to: usize) -> (r: String)
    requires
        from <= to <= s.len(),
    ensures
        r@ == s@.subrange(from as int, to as int),
{
    let mut out = String::new();
    let mut i: usize = from;
    while i < to
        invariant
            from <= i <= to <= s.len(),
            out@ == s@.subrange(from as int, i as int),
        decreases to - i,
    {
        string_push(&mut out, s[i]);
        proof {
            assert(s@.subrange(from as int, i as int + 1) == s@.subrange(from as int,
                i as int).push(
                s@[i as int],
            ));
        }
        i = i + 1;
    }
    out
}

/// How many characters of `s`, from its start, take no more than `max`
/// bytes together.
pub open spec fn spec_floor_chars(s: Seq<char>, max: nat) -> nat
    decreases s.len(),
{
    if s.len() == 0 || char_len_utf8(s[0]) > max {
        0
    } else {
        1 + spec_floor_chars(s.drop_first(), (max - char_len_utf8(s[0])) as nat)
    }
}

/// The longest prefix of `s` that takes no more than `max` bytes.
pub open spec fn truncate(s: Seq<char>, max: nat) -> Seq<char> {
    s.take(spec_floor_chars(s, max) as int)
}

/// What `spec_floor_chars` counts fits in `max` bytes, and one character
/// more does not; it counts all of a sequence that fits.
pub proof fn lemma_floor_chars(s: Seq<char>, max: nat)
    ensures
        spec_floor_chars(s, max) <= s.len(),
        utf8_len(s.take(spec_floor_chars(s, max) as int)) <= max,
        spec_floor_chars(s, max) < s.len() ==> utf8_len(
            s.take(spec_floor_chars(s, max) as int + 1),
        ) > max,
        utf8_len(s) <= max ==> spec_floor_chars(s, max) == s.len(),
    decreases s.len(),
{
    if s.len() == 0 || char_len_utf8(s[0]) > max {
        assert(s.take(0) == Seq::<char>::empty());
        if s.len() > 0 {
            assert(s.take(1) == seq![s[0]]);
            lemma_utf8_len_push(Seq::empty(), s[0]);
            assert(Seq::<char>::empty().push(s[0]) == seq![s[0]]);
        }
    } else {
        let rest = s.drop_first();
        let m = (max - char_len_utf8(s[0])) as nat;
        lemma_floor_chars(rest, m);
        let k = spec_floor_chars(rest, m);
        assert(s.take(k as int + 1).drop_first() == rest.take(k as int));
        if k < rest.len() {
            assert(s.take(k as int + 2).drop_first() == rest.take(k as int + 1));
        }
    }
}

/// How many characters of `s[from..]` take no more than `max` bytes
/// together.
pub fn floor_chars(s: &[char], from: usize, max: usize) -> (r: usize)
    requires
        from <= s.len(),
    ensures
        r == spec_floor_chars(s@.skip(from as int), max as nat),
        from + r <= s.len(),
{
    let mut n: usize = 0;
    let mut left: usize = max;
    proof {
        lemma_floor_chars(s@.skip(from as int), max as nat);
    }
    while from + n < s.len() && len_utf8(s[from + n]) <= left
        invariant
            from + n <= s.len(),
            left <= max,
            spec_floor_chars(s@.skip(from as int), max as nat) == n + spec_floor_chars(
                s@.skip(from + n),
                left as nat,
            ),
        decreases s.len() - n,
    {
        proof {
            let cur = s@.skip(from + n);
            assert(cur[0] == s@[from + n]);
            assert(cur.drop_first() == s@.skip(from + n + 1));
        }
        left = left - len_utf8(s[from + n]);
        n = n + 1;
    }
    proof {
        let cur = s@.skip(from + n);
        if from + n < s.len() {
            assert(cur[0] == s@[from + n]);
        }
    }
    n
}

/// The characters of `s`, in order.
pub fn chars_of(s: &str) -> (v: Vec<char>)
    ensures
        v@ == s@,
{
    let mut v: Vec<char> = Vec::new();
    for c in it: s.chars()
        invariant
            v@ == it.seq().take(it.index() as int),
    {
        v.push(c);
    }
    v
}

/// The length of `s` in UTF-8 bytes; `None` where it does not fit in `usize`.
pub fn byte_len(s: &[char]) -> (r: Option<usize>)
    ensures
        match r {
            Some(n) => n == utf8_len(s@),
            None => utf8_len(s@) > usize::MAX,
        },
{
    let mut n: usize = 0;
    let mut i: usize = 0;
    while i < s.len()
        invariant
            i <= s.len(),
            n == utf8_len(s@.subrange(0, i as int)),
        decreases s.len() - i,
    {
        let l = len_utf8(s[i]);
        proof {
            assert(s@.subrange(0, i as int + 1) == s@.subrange(0, i as int).push(s@[i as int]));
            lemma_utf8_len_push(s@.subrange(0, i as int), s@[i as int]);
            lemma_utf8_len_monotonic(s@, i as int + 1, s@.len() as int);
            assert(s@.subrange(0, s@.len() as int) == s@);
        }
        if n > usize::MAX - l {
            return None;
        }
        n = n + l;
        i = i + 1;
    }
    proof {
        assert(s@.subrange(0, i as int) == s@);
    }
    Some(n)
}

/// How a reading stands to what is left of a pattern.
#[derive(Clone, Copy, PartialEq, Eq, Structural, Debug)]
pub enum Relation {
    /// Neither is a prefix of the other, or the reading is empty.
    Mismatch,
    /// The pattern's rest is a proper prefix of the reading.
    Partial,
    /// They are the same.
    Exact,
    /// The reading is a proper prefix of the pattern's rest.
    Prefix,
}

/// How `reading` stands to `tail`, what is left of a pattern.
pub open spec fn spec_relate(reading: Seq<char>, tail: Seq<char>) -> Relation {
    if reading.len() == 0 {
        Relation::Mismatch
    } else if is_prefix(reading, tail) {
        if reading.len() == tail.len() {
            Relation::Exact
        } else {
            Relation::Prefix
        }
    } else if is_prefix(tail, reading) {
        Relation::Partial
    } else {
        Relation::Mismatch
    }
}

/// How `reading` stands to `pattern[from..]`, and the number of
/// characters of `reading` that were looked at: all of them where the
/// relation is `Exact` or `Prefix`.
pub fn relate(reading: &str, pattern: &[char], from: usize) -> (r: (Relation, usize))
    requires
        from <= pattern.len(),
    ensures
        r.0 == spec_relate(reading@, pattern@.skip(from as int)),
        r.0 is Exact || r.0 is Prefix ==> r.1 == reading@.len(),
        from + r.1 <= pattern.len(),
{
    let ghost tail = pattern@.skip(from as int);
    let mut k: usize = 0;
    for c in it: reading.chars()
        invariant
            it.seq() == reading@,
            k == it.index(),
            from + k <= pattern.len(),
            tail == pattern@.skip(from as int),
            forall|j: int| 0 <= j < k ==> tail[j] == reading@[j],
    {
        if from + k >= pattern.len() {
            proof {
                assert(tail.len() == k);
                assert(reading@.subrange(0, k as int) =~= tail);
            }
            return (Relation::Partial, k);
        }
        if pattern[from + k] != c {
            proof {
                assert(tail[k as int] != reading@[k as int]);
                if is_prefix(reading@, tail) {
                    assert(tail.subrange(0, reading@.len() as int)[k as int] == reading@[k as int]);
                }
                if is_prefix(tail, reading@) {
                    assert(reading@.subrange(0, tail.len() as int)[k as int] == tail[k as int]);
                }
            }
            return (Relation::Mismatch, k);
        }
        k = k + 1;
    }
    proof {
        assert(k == reading@.len());
        assert(tail.subrange(0, k as int) =~= reading@);
    }
    if k == 0 {
        (Relation::Mismatch, k)
    } else if from + k == pattern.len() {
        (Relation::Exact, k)
    } else {
        (Relation::Prefix, k)
    }
}

/// The first index at or after `from` at which `table` holds `c`, or the
/// length of `table`.
pub open spec fn index_of(table: Seq<char>, from: int, c: char) -> int
    decreases table.len() - from,
{
    if from < 0 || from >= table.len() {
        table.len() as int
    } else if table[from] == c {
        from
    } else {
        index_of(table, from + 1, c)
    }
}

/// What `index_of` yields lies between `from` and the length, and is a
/// place of `c` unless it is the length.
pub proof fn lemma_index_of_bounds(table: Seq<char>, from: int, c: char)
    requires
        0 <= from <= table.len(),
    ensures
        from <= index_of(table, from, c) <= table.len(),
        index_of(table, from, c) < table.len() ==> table[index_of(table, from, c)] == c,
    decreases table.len() - from,
{
    if from < table.len() && table[from] != c {
        lemma_index_of_bounds(table, from + 1, c);
    }
}

/// The first index at or after `from` at which `table` holds `c`, or the
/// length of `table`.
pub fn find_char(table: &[char], from: usize, c: char) -> (r: usize)
    requires
        from <= table.len(),
    ensures
        r == index_of(table@, from as int, c),
        from <= r <= table.len(),
        r < table.len() ==> table@[r as int] == c,
{
    let mut i: usize = from;
    while i < table.len() && table[i] != c
        invariant
            from <= i <= table.len(),
            index_of(table@, from as int, c) == index_of(table@, i as int, c),
        decreases table.len() - i,
    {
        i = i + 1;
    }
    i
}

/// Whether `a[from..to]` holds the characters of `b`.
pub fn range_eq(a: &[char], from: usize, to: usize, b: &[char]) -> (r: bool)
    requires
        from <= to <= a.len(),
    ensures
        r == (a@.subrange(from as int, to as int) == b@),
{
    if to - from != b.len() {
        return false;
    }
    let mut i: usize = 0;
    while i < b.len()
        invariant
            i <= b.len(),
            to - from == b.len(),
            from <= to <= a.len(),
            forall|k: int| 0 <= k < i ==> a@[from + k] == b@[k],
        decreases b.len() - i,
    {
        if a[from + i] != b[i] {
            proof {
                assert(a@.subrange(from as int, to as int)[i as int] != b@[i as int]);
            }
            return false;
        }
        i = i + 1;
    }
    proof {
        assert(a@.subrange(from as int, to as int) =~= b@);
    }
    true
}

/// The characters `a[from..to]`.
pub fn copy_range(a: &[char], from: usize, to: usize) -> (r: Vec<char>)
    requires
        from <= to <= a.len(),
    ensures
        r@ == a@.subrange(from as int, to as int),
{
    let mut out: Vec<char> = Vec::new();
    let mut i: usize = from;
    while i < to
        invariant
            from <= i <= to <= a.len(),
            out@ == a@.subrange(from as int, i as int),
        decreases to - i,
    {
        out.push(a[i]);
        proof {
            assert(a@.subrange(from as int, i as int + 1) == a@.subrange(from as int,
                i as int).push(
                a@[i as int],
            ));
        }
        i = i + 1;
    }
    out
}

/// A sequence of ASCII characters takes one byte each.
pub proof fn lemma_utf8_len_ascii(s: Seq<char>)
    requires
        is_ascii_chars(s),
    ensures
        utf8_len(s) == s.len(),
    decreases s.len(),
{
    if s.len() > 0 {
        assert(is_ascii_chars(s.drop_first())) by {
            assert forall|i: int| 0 <= i < s.drop_first().len() implies '\0'
                <= #[trigger] s.drop_first()[i] <= '\u{7f}' by {
                assert(s.drop_first()[i] == s[i + 1]);
            }
        }
        lemma_utf8_len_ascii(s.drop_first());
    }
}

} // verus!
