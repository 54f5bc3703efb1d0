//! The mathematical model: sets of `u16` values, how a sequence of words stands for one, and how
//! its members are counted.
use vstd::prelude::*;
use vstd::set_lib::*;
use vstd::std_specs::bits::*;

use crate::word;

verus! {

/// The number of words in a bitmap.
pub const BITMAP_LENGTH: usize = 1024;

/// The number of bytes that those words take.
pub const BITMAP_BYTES: usize = BITMAP_LENGTH * 8;

/// The set for which `words` stands: `x` is a member when bit `x % 64` of word `x / 64` is set.
pub open spec fn word_set(words: Seq<u64>) -> Set<u16> {
    Set::new(|x: u16| word::has_bit(words[x as int / 64], x as int % 64))
}

/// The members that the word `w` contributes when it stands at index `k`.
pub open spec fn word_part(k: int, w: u64) -> Set<u16> {
    Set::new(|x: u16| x as int / 64 == k && word::has_bit(w, x as int % 64))
}

/// The members of `s` from `lo` up to, but not including, `hi`.
pub open spec fn between(s: Set<u16>, lo: int, hi: int) -> Set<u16> {
    s.filter(|x: u16| lo <= x < hi)
}

/// All values from `start` to `end`, both ends included.
pub open spec fn range_set(start: u16, end: u16) -> Set<u16> {
    Set::new(|x: u16| start <= x <= end)
}

/// How many members of `s` are less than `x`.
pub open spec fn count_below(s: Set<u16>, x: int) -> nat {
    s.filter(|y: u16| y < x).len()
}

/// How many members of `s` are greater than `x`.
pub open spec fn count_above(s: Set<u16>, x: int) -> nat {
    s.filter(|y: u16| x < y).len()
}

/// `s` without its `n` least members: those with at least `n` members below them.
pub open spec fn without_smallest(s: Set<u16>, n: nat) -> Set<u16> {
    s.filter(|x: u16| n <= count_below(s, x as int))
}

/// `s` without its `n` greatest members: those with at least `n` members above them.
pub open spec fn without_biggest(s: Set<u16>, n: nat) -> Set<u16> {
    s.filter(|x: u16| n <= count_above(s, x as int))
}

/// `x` is the least member of `s`.
pub open spec fn is_min(s: Set<u16>, x: u16) -> bool {
    s.contains(x) && forall|y: u16| #[trigger] s.contains(y) ==> x <= y
}

/// `x` is the greatest member of `s`.
pub open spec fn is_max(s: Set<u16>, x: u16) -> bool {
    s.contains(x) && forall|y: u16| #[trigger] s.contains(y) ==> y <= x
}

/// The members that are in exactly one of `a` and `b`.
pub open spec fn symmetric_difference(a: Set<u16>, b: Set<u16>) -> Set<u16> {
    a.difference(b).union(b.difference(a))
}

/// The values of `values` are in ascending order, none of them twice.
pub open spec fn is_ascending(values: Seq<u16>) -> bool {
    forall|i: int, j: int| 0 <= i < j < values.len() ==> values[i] < values[j]
}

/// The values that the first `n` entries of `values` name.
pub open spec fn first_values(values: Seq<u16>, n: int) -> Set<u16> {
    Set::new(|x: u16| exists|j: int| 0 <= j < n && #[trigger] values[j] == x)
}

/// The set that `bytes` stand for when they start at byte `offset` of the bitmap: `x` is a member
/// when bit `x % 8` of byte `x / 8` is set.
pub open spec fn byte_set(bytes: Seq<u8>, offset: int) -> Set<u16> {
    Set::new(
        |x: u16|
            offset <= x as int / 8 < offset + bytes.len() && word::has_bit(
                bytes[x as int / 8 - offset] as u64,
                x as int % 8,
            ),
    )
}

/// The bytes of `words`, least significant byte of each word first.
pub open spec fn words_to_bytes(words: Seq<u64>) -> Seq<u8> {
    Seq::new(8 * words.len(), |i: int| word::byte_of(words[i / 8], i % 8))
}

/// Every set of `u16` values is finite.
pub broadcast proof fn lemma_finite(s: Set<u16>)
    ensures
        #[trigger] s.finite(),
{
    <u16 as FiniteFull>::full_properties();
    assert(s.subset_of(Set::<u16>::full()));
    lemma_set_subset_finite(Set::<u16>::full(), s);
}

/// A range holds as many values as its ends are apart, plus one.
pub proof fn lemma_range_len(start: u16, end: u16)
    requires
        start <= end,
    ensures
        range_set(start, end).len() == end - start + 1,
{
    broadcast use lemma_finite;

    <u16 as FiniteRange>::range_properties(start, end);
    assert(range_set(start, end) =~= <u16 as FiniteRange>::range_set(start, end).insert(end));
}

/// A set of `u16` values has at most 65536 members.
pub proof fn lemma_len_bound(s: Set<u16>)
    ensures
        s.len() <= 65536,
{
    broadcast use lemma_finite;

    lemma_range_len(0, u16::MAX);
    assert(s.subset_of(range_set(0, u16::MAX)));
    lemma_len_subset(s, range_set(0, u16::MAX));
}

/// A word contributes as many members as it has set bits.
pub proof fn lemma_word_part_len(k: int, w: u64)
    requires
        0 <= k < 1024,
    ensures
        word_part(k, w).len() == word::ones(w),
{
    broadcast use word::group_word_bits;

    let f = |i: int| (64 * k + i) as u16;
    let positions = word::bit_positions(w);
    word::lemma_positions_finite(w);
    assert forall|x: u16| word_part(k, w).contains(x) implies positions.map(f).contains(x) by {
        assert(positions.contains(x as int % 64));
        assert(f(x as int % 64) == x);
    }
    assert(positions.map(f) =~= word_part(k, w));
    lemma_map_size(positions, word_part(k, w), f);
}

/// Members up to a point and members from that point on add up.
pub proof fn lemma_between_split(s: Set<u16>, lo: int, mid: int, hi: int)
    requires
        lo <= mid <= hi,
    ensures
        between(s, lo, hi).len() == between(s, lo, mid).len() + between(s, mid, hi).len(),
{
    broadcast use lemma_finite;

    let a = between(s, lo, mid);
    let b = between(s, mid, hi);
    assert(a.disjoint(b));
    assert(between(s, lo, hi) =~= a + b);
    lemma_set_disjoint_lens(a, b);
}

/// The members that fall into the word at index `k` and that `mask` keeps, counted by the set bits
/// of the masked word; `mask` keeps the positions from `lo` up to, but not including, `hi`.
pub proof fn lemma_masked_word_len(words: Seq<u64>, k: int, mask: u64, lo: int, hi: int)
    requires
        0 <= k < 1024,
        0 <= lo <= hi <= 64,
        forall|i: int| #[trigger] word::has_bit(mask, i) == (lo <= i < hi),
    ensures
        between(word_set(words), 64 * k + lo, 64 * k + hi).len() == word::ones(words[k] & mask),
{
    broadcast use word::group_word_bits;

    lemma_word_part_len(k, words[k] & mask);
    assert(between(word_set(words), 64 * k + lo, 64 * k + hi) =~= word_part(k, words[k] & mask));
}

/// The members that fall into the word at index `k`, counted by its set bits.
pub proof fn lemma_word_len(words: Seq<u64>, k: int)
    requires
        0 <= k < 1024,
    ensures
        between(word_set(words), 64 * k, 64 * k + 64).len() == word::ones(words[k]),
{
    broadcast use word::group_word_bits;

    lemma_word_part_len(k, words[k]);
    assert(between(word_set(words), 64 * k, 64 * k + 64) =~= word_part(k, words[k]));
}

/// Counting one word more.
pub proof fn lemma_count_step(words: Seq<u64>, k: int)
    requires
        0 <= k < 1024,
    ensures
        between(word_set(words), 0, 64 * (k + 1)).len() == between(word_set(words), 0, 64 * k).len()
            + word::ones(words[k]),
{
    lemma_between_split(word_set(words), 0, 64 * k, 64 * k + 64);
    lemma_word_len(words, k);
}

/// No words counted, no members; all words counted, all members.
pub proof fn lemma_count_ends(s: Set<u16>)
    ensures
        between(s, 0, 0).len() == 0,
        between(s, 0, 65536) =~= s,
{
    assert(between(s, 0, 0) =~= Set::empty());
}

/// The words of a bitmap are determined by the set for which they stand.
pub proof fn lemma_words_ext(a: Seq<u64>, b: Seq<u64>)
    requires
        a.len() == BITMAP_LENGTH,
        b.len() == BITMAP_LENGTH,
        word_set(a) == word_set(b),
    ensures
        a == b,
{
    assert forall|k: int| 0 <= k < BITMAP_LENGTH implies a[k] == b[k] by {
        assert forall|i: int| 0 <= i < 64 implies #[trigger] word::has_bit(a[k], i)
            == word::has_bit(b[k], i) by {
            let x = (64 * k + i) as u16;
            assert(x as int / 64 == k && x as int % 64 == i);
            assert(word_set(a).contains(x) == word::has_bit(a[k], i));
            assert(word_set(b).contains(x) == word::has_bit(b[k], i));
        }
        word::lemma_word_ext(a[k], b[k]);
    }
    assert(a =~= b);
}

/// A word is zero exactly when no member falls into it.
pub proof fn lemma_word_zero(words: Seq<u64>, k: int)
    requires
        0 <= k < 1024,
    ensures
        words[k] == 0 <==> forall|x: u16|
            x as int / 64 == k ==> !#[trigger] word_set(words).contains(x),
{
    broadcast use word::group_word_bits;

    if words[k] != 0 {
        word::lemma_lowest_bit(words[k]);
        let t = u64_trailing_zeros(words[k]) as int;
        let x = (64 * k + t) as u16;
        assert(x as int / 64 == k && x as int % 64 == t);
        assert(word_set(words).contains(x));
    }
}

/// `first` and `last` are the indices of the first and the last word that is not zero.
pub open spec fn word_bounds(words: Seq<u64>, first: int, last: int) -> bool {
    &&& 0 <= first <= last < BITMAP_LENGTH
    &&& words[first] != 0
    &&& words[last] != 0
    &&& forall|k: int| 0 <= k < first ==> #[trigger] words[k] == 0
    &&& forall|k: int| last < k < BITMAP_LENGTH ==> #[trigger] words[k] == 0
}

/// A set with a member has a word that is not zero.
pub proof fn lemma_nonzero_word(words: Seq<u64>) -> (k: int)
    requires
        word_set(words).len() > 0,
    ensures
        0 <= k < BITMAP_LENGTH,
        words[k] != 0,
{
    broadcast use {lemma_finite, word::group_word_bits};

    let x = word_set(words).choose();
    assert(word_set(words).contains(x));
    x as int / 64
}

/// A set without members has no word other than zero.
pub proof fn lemma_zero_words(words: Seq<u64>)
    requires
        word_set(words).len() == 0,
    ensures
        forall|k: int| 0 <= k < BITMAP_LENGTH ==> #[trigger] words[k] == 0,
{
    broadcast use lemma_finite;

    word_set(words).lemma_len0_is_empty();
    assert forall|k: int| 0 <= k < BITMAP_LENGTH implies #[trigger] words[k] == 0 by {
        lemma_word_zero(words, k);
    }
}

/// Adding a range adds the values of the range that were missing.
pub proof fn lemma_union_range_len(s: Set<u16>, start: u16, end: u16)
    requires
        start <= end,
    ensures
        s.union(range_set(start, end)).len() == s.len() + (end - start + 1) - between(
            s,
            start as int,
            end + 1,
        ).len(),
{
    broadcast use lemma_finite;

    let r = range_set(start, end);
    lemma_range_len(start, end);
    lemma_set_intersect_union_lens(s, r);
    assert(s.union(r) =~= s + r);
    assert(s.intersect(r) =~= between(s, start as int, end + 1));
}

/// Removing a range removes the members that fall into it.
pub proof fn lemma_difference_range_len(s: Set<u16>, start: u16, end: u16)
    ensures
        s.difference(range_set(start, end)).len() == s.len() - between(
            s,
            start as int,
            end + 1,
        ).len(),
{
    broadcast use lemma_finite;

    let d = s.difference(range_set(start, end));
    let b = between(s, start as int, end + 1);
    assert(d.disjoint(b));
    assert(s =~= d + b);
    lemma_set_disjoint_lens(d, b);
}

/// A word that is zero stays zero when no member is added.
pub proof fn lemma_zero_word_subset(a: Seq<u64>, b: Seq<u64>, k: int)
    requires
        0 <= k < BITMAP_LENGTH,
        word_set(a).subset_of(word_set(b)),
        b[k] == 0,
    ensures
        a[k] == 0,
{
    lemma_word_zero(a, k);
    lemma_word_zero(b, k);
}

/// All members that `mask` stands for at index `k` are members when the word there covers `mask`.
pub proof fn lemma_part_covered(words: Seq<u64>, k: int, mask: u64)
    requires
        0 <= k < BITMAP_LENGTH,
    ensures
        words[k] & mask == mask <==> word_part(k, mask).subset_of(word_set(words)),
{
    broadcast use word::group_word_bits;

    word::lemma_covers(words[k], mask);
    if word_part(k, mask).subset_of(word_set(words)) {
        assert forall|i: int| #[trigger] word::has_bit(mask, i) implies word::has_bit(
            words[k],
            i,
        ) by {
            let x = (64 * k + i) as u16;
            assert(x as int / 64 == k && x as int % 64 == i);
            assert(word_part(k, mask).contains(x));
            assert(word_set(words).contains(x));
        }
    }
}

/// The members that fall into the word at index `k` below position `p`.
pub proof fn lemma_partial_word_len(words: Seq<u64>, k: int, p: int)
    requires
        0 <= k < BITMAP_LENGTH,
        0 <= p <= 64,
    ensures
        between(word_set(words), 64 * k, 64 * k + p).len() == word::ones_below(words[k], p),
{
    broadcast use word::group_word_bits;

    let w = words[k];
    let f = |i: int| (64 * k + i) as u16;
    let low = word::bit_positions(w).filter(|i: int| i < p);
    let part = between(word_set(words), 64 * k, 64 * k + p);
    word::lemma_positions_finite(w);
    assert forall|x: u16| part.contains(x) implies low.map(f).contains(x) by {
        assert(low.contains(x as int % 64));
        assert(f(x as int % 64) == x);
    }
    assert(low.map(f) =~= part);
    lemma_map_size(low, part, f);
}

/// Counting below a point is counting from zero up to it.
pub proof fn lemma_count_below(s: Set<u16>, x: int)
    ensures
        count_below(s, x) == between(s, 0, x).len(),
{
    assert(s.filter(|y: u16| y < x) =~= between(s, 0, x));
}

/// The further up, the more members lie below; strictly so when a member is passed.
pub proof fn lemma_count_below_monotone(s: Set<u16>, a: int, b: int)
    requires
        a <= b,
    ensures
        count_below(s, a) <= count_below(s, b) <= s.len(),
        (exists|x: u16| #[trigger] s.contains(x) && a <= x < b) ==> count_below(s, a) < count_below(
            s,
            b,
        ),
{
    broadcast use lemma_finite;

    let below_a = s.filter(|y: u16| y < a);
    let below_b = s.filter(|y: u16| y < b);
    lemma_len_subset(below_a, below_b);
    lemma_len_subset(below_b, s);
    if exists|x: u16| #[trigger] s.contains(x) && a <= x < b {
        let x = choose|x: u16| #[trigger] s.contains(x) && a <= x < b;
        assert(below_a.insert(x).subset_of(below_b));
        lemma_len_subset(below_a.insert(x), below_b);
    }
}

/// The members from `t` on are those with at least as many members below them as `t` has.
pub proof fn lemma_upper_threshold(s: Set<u16>, t: int, n: nat)
    requires
        count_below(s, t) == n,
    ensures
        s.filter(|x: u16| t <= x) =~= without_smallest(s, n),
        s.filter(|x: u16| t <= x).len() == s.len() - n,
{
    broadcast use lemma_finite;

    assert forall|x: u16| #[trigger] s.contains(x) implies (t <= x <==> n
        <= count_below(s, x as int)) by {
        if t <= x {
            lemma_count_below_monotone(s, t, x as int);
        } else {
            lemma_count_below_monotone(s, x as int, t);
        }
    }
    let lower = s.filter(|x: u16| x < t);
    let upper = s.filter(|x: u16| t <= x);
    assert(lower.disjoint(upper));
    assert(s =~= lower + upper);
    lemma_set_disjoint_lens(lower, upper);
}

/// The further up, the fewer members lie above; strictly so when a member is passed.
pub proof fn lemma_count_above_monotone(s: Set<u16>, a: int, b: int)
    requires
        a <= b,
    ensures
        count_above(s, b) <= count_above(s, a) <= s.len(),
        (exists|x: u16| #[trigger] s.contains(x) && a < x <= b) ==> count_above(s, b) < count_above(
            s,
            a,
        ),
{
    broadcast use lemma_finite;

    let above_a = s.filter(|y: u16| a < y);
    let above_b = s.filter(|y: u16| b < y);
    lemma_len_subset(above_b, above_a);
    lemma_len_subset(above_a, s);
    if exists|x: u16| #[trigger] s.contains(x) && a < x <= b {
        let x = choose|x: u16| #[trigger] s.contains(x) && a < x <= b;
        assert(above_b.insert(x).subset_of(above_a));
        lemma_len_subset(above_b.insert(x), above_a);
    }
}

/// The members below `t` are those with at least as many members above them as there are from `t`
/// on.
pub proof fn lemma_lower_threshold(s: Set<u16>, t: int, n: nat)
    requires
        between(s, t, 65536).len() == n,
    ensures
        s.filter(|x: u16| x < t) =~= without_biggest(s, n),
        s.filter(|x: u16| x < t).len() == s.len() - n,
{
    broadcast use lemma_finite;

    let lower = s.filter(|x: u16| x < t);
    let upper = between(s, t, 65536);
    assert(upper =~= s.filter(|y: u16| t - 1 < y));
    assert forall|x: u16| #[trigger] s.contains(x) implies (x < t <==> n
        <= count_above(s, x as int)) by {
        if x < t {
            lemma_count_above_monotone(s, x as int, t - 1);
        } else {
            lemma_count_above_monotone(s, t - 1, x as int);
        }
    }
    assert(lower.disjoint(upper));
    assert(s =~= lower + upper);
    lemma_set_disjoint_lens(lower, upper);
}

/// The lowest set bit of the first word that is not zero is the least member.
pub proof fn lemma_min_member(words: Seq<u64>, k: int)
    requires
        0 <= k < BITMAP_LENGTH,
        words[k] != 0,
        forall|j: int| 0 <= j < k ==> #[trigger] words[j] == 0,
    ensures
        0 <= u64_trailing_zeros(words[k]) < 64,
        is_min(word_set(words), (64 * k + u64_trailing_zeros(words[k])) as u16),
{
    broadcast use word::group_word_bits;

    word::lemma_lowest_bit(words[k]);
    let t = u64_trailing_zeros(words[k]) as int;
    let x = (64 * k + t) as u16;
    assert(x as int / 64 == k && x as int % 64 == t);
    assert(word_set(words).contains(x));
    assert forall|y: u16| #[trigger] word_set(words).contains(y) implies x <= y by {
        assert(words[y as int / 64] != 0);
    }
}

/// The highest set bit of the last word that is not zero is the greatest member.
pub proof fn lemma_max_member(words: Seq<u64>, k: int)
    requires
        0 <= k < BITMAP_LENGTH,
        words[k] != 0,
        forall|j: int| k < j < BITMAP_LENGTH ==> #[trigger] words[j] == 0,
    ensures
        0 <= u64_leading_zeros(words[k]) < 64,
        is_max(word_set(words), (64 * k + 63 - u64_leading_zeros(words[k])) as u16),
{
    broadcast use word::group_word_bits;

    word::lemma_highest_bit(words[k]);
    let h = 63 - u64_leading_zeros(words[k]);
    let x = (64 * k + h) as u16;
    assert(x as int / 64 == k && x as int % 64 == h);
    assert(word_set(words).contains(x));
    assert forall|y: u16| #[trigger] word_set(words).contains(y) implies y <= x by {
        assert(words[y as int / 64] != 0);
    }
}

/// One entry more names one value more.
pub proof fn lemma_first_values_step(values: Seq<u16>, n: int)
    requires
        0 <= n < values.len(),
    ensures
        first_values(values, n + 1) == first_values(values, n).insert(values[n]),
{
    let a = first_values(values, n + 1);
    let b = first_values(values, n).insert(values[n]);
    assert forall|x: u16| a.contains(x) == b.contains(x) by {
        if b.contains(x) {
            if x == values[n] {
                assert(values[n] == x);
            }
        }
    }
    assert(a =~= b);
}

/// No entries name no values; all entries name the values of the sequence.
pub proof fn lemma_first_values_ends(values: Seq<u16>)
    ensures
        first_values(values, 0) == Set::<u16>::empty(),
        first_values(values, values.len() as int) == values.to_set(),
{
    assert(first_values(values, 0) =~= Set::<u16>::empty());
    assert forall|x: u16| first_values(values, values.len() as int).contains(x)
        == values.to_set().contains(x) by {
        if values.contains(x) {
            let j = choose|j: int| 0 <= j < values.len() && values[j] == x;
            assert(values[j] == x);
        }
    }
    assert(first_values(values, values.len() as int) =~= values.to_set());
}

/// The members that fall into the first `k` words depend on those words alone.
pub proof fn lemma_prefix_members(a: Seq<u64>, b: Seq<u64>, k: int)
    requires
        0 <= k <= BITMAP_LENGTH,
        forall|j: int| 0 <= j < k ==> #[trigger] a[j] == b[j],
    ensures
        between(word_set(a), 0, 64 * k) == between(word_set(b), 0, 64 * k),
{
    assert(between(word_set(a), 0, 64 * k) =~= between(word_set(b), 0, 64 * k));
}

} // verus!
