//! One 64-bit word seen as a set of bit positions.
use vstd::prelude::*;
use vstd::set_lib::*;
use vstd::std_specs::bits::*;

verus! {

/// Bit `i` of `w` is set; bit 0 is the least significant one.
#[verifier::opaque]
pub open spec fn has_bit(w: u64, i: int) -> bool {
    0 <= i < 64 && (w >> (i as u64)) & 1 == 1
}

/// The positions of the bits that are set in `w`.
pub open spec fn bit_positions(w: u64) -> Set<int> {
    Set::new(|i: int| has_bit(w, i))
}

/// How many bits are set in `w`.
pub open spec fn ones(w: u64) -> nat {
    bit_positions(w).len()
}

/// How many bits are set in `w` at positions below `p`.
pub open spec fn ones_below(w: u64, p: int) -> nat {
    bit_positions(w).filter(|i: int| i < p).len()
}

/// `u64::count_ones` returns the number of ones in the binary representation of its argument.
pub assume_specification[ u64::count_ones ](w: u64) -> (r: u32)
    ensures
        r == ones(w),
;

// ---------------------------------------------------------------------------------------------
// How the bit operators act on single bits.

pub broadcast proof fn lemma_bit_bounds(w: u64, i: int)
    requires
        #[trigger] has_bit(w, i),
    ensures
        0 <= i < 64,
{
    reveal(has_bit);
}

pub broadcast proof fn lemma_bit_zero(i: int)
    ensures
        !#[trigger] has_bit(0, i),
{
    reveal(has_bit);
    let j = i as u64;
    assert((0u64 >> j) & 1 == 0) by (bit_vector);
}

pub broadcast proof fn lemma_bit_full(i: int)
    ensures
        #[trigger] has_bit(u64::MAX, i) == (0 <= i < 64),
{
    reveal(has_bit);
    let j = i as u64;
    assert(j < 64 ==> (0xffff_ffff_ffff_ffffu64 >> j) & 1 == 1) by (bit_vector);
}

pub broadcast proof fn lemma_bit_or(a: u64, b: u64, i: int)
    ensures
        #[trigger] has_bit(a | b, i) == (has_bit(a, i) || has_bit(b, i)),
{
    reveal(has_bit);
    let j = i as u64;
    assert(((a | b) >> j) & 1 == 1 <==> ((a >> j) & 1 == 1 || (b >> j) & 1 == 1)) by (bit_vector);
}

pub broadcast proof fn lemma_bit_and(a: u64, b: u64, i: int)
    ensures
        #[trigger] has_bit(a & b, i) == (has_bit(a, i) && has_bit(b, i)),
{
    reveal(has_bit);
    let j = i as u64;
    assert(((a & b) >> j) & 1 == 1 <==> ((a >> j) & 1 == 1 && (b >> j) & 1 == 1)) by (bit_vector);
}

pub broadcast proof fn lemma_bit_xor(a: u64, b: u64, i: int)
    ensures
        #[trigger] has_bit(a ^ b, i) == (has_bit(a, i) != has_bit(b, i)),
{
    reveal(has_bit);
    let j = i as u64;
    assert(((a ^ b) >> j) & 1 == 1 <==> ((a >> j) & 1 == 1) != ((b >> j) & 1 == 1))
        by (bit_vector);
}

pub broadcast proof fn lemma_bit_not(a: u64, i: int)
    ensures
        #[trigger] has_bit(!a, i) == (0 <= i < 64 && !has_bit(a, i)),
{
    reveal(has_bit);
    let j = i as u64;
    assert(j < 64 ==> ((!a >> j) & 1 == 1 <==> (a >> j) & 1 != 1)) by (bit_vector);
}

pub broadcast proof fn lemma_bit_single(b: usize, i: int)
    requires
        b < 64,
    ensures
        #[trigger] has_bit(1u64 << b, i) == (i == b),
{
    reveal(has_bit);
    let j = i as u64;
    let c = b as u64;
    assert(c < 64 && j < 64 ==> (((1u64 << c) >> j) & 1 == 1 <==> j == c)) by (bit_vector);
}

pub broadcast proof fn lemma_bit_shl(w: u64, s: usize, i: int)
    requires
        s < 64,
    ensures
        #[trigger] has_bit(w << s, i) == (i < 64 && has_bit(w, i - s)),
{
    reveal(has_bit);
    let j = i as u64;
    let c = s as u64;
    let d = (i - s) as u64;
    assert(c <= j && j < 64 && d == j - c ==> ((w << c) >> j) & 1 == (w >> d) & 1) by (bit_vector);
    assert(j < c && c < 64 ==> ((w << c) >> j) & 1 == 0) by (bit_vector);
}

pub broadcast proof fn lemma_bit_shr(w: u64, s: usize, i: int)
    requires
        s < 64,
    ensures
        #[trigger] has_bit(w >> s, i) == (0 <= i && has_bit(w, i + s)),
{
    reveal(has_bit);
    let j = i as u64;
    let c = s as u64;
    let d = (i + s) as u64;
    assert(c < 64 && j < 64 && d == j + c ==> ((w >> c) >> j) & 1 == (w >> d) & 1)
        by (bit_vector);
    assert(64 <= d && d < 128 ==> (w >> d) & 1 == 0) by (bit_vector);
}

/// A byte has no set bits from position 8 on.
pub proof fn lemma_byte_bits(b: u8, i: int)
    requires
        has_bit(b as u64, i),
    ensures
        i < 8,
{
    reveal(has_bit);
    let j = i as u64;
    assert(8 <= j < 64 ==> (b as u64 >> j) & 1 == 0) by (bit_vector);
}

/// Byte `j` of a word, counted from the least significant one.
pub open spec fn byte_of(w: u64, j: int) -> u8 {
    (w >> (8 * j) as u64) as u8
}

/// The bits of byte `j` of a word are the bits of the word from position `8 * j` on.
pub proof fn lemma_byte_of(w: u64, j: int, i: int)
    requires
        0 <= j < 8,
        0 <= i < 8,
    ensures
        has_bit(byte_of(w, j) as u64, i) == has_bit(w, 8 * j + i),
{
    reveal(has_bit);
    let s = (8 * j) as u64;
    let k = i as u64;
    let t = (8 * j + i) as u64;
    assert(s <= 56 && k < 8 && t == s + k ==> (((w >> s) as u8) as u64 >> k) & 1 == (w >> t) & 1)
        by (bit_vector);
}

pub broadcast group group_word_bits {
    lemma_bit_bounds,
    lemma_bit_zero,
    lemma_bit_full,
    lemma_bit_or,
    lemma_bit_and,
    lemma_bit_xor,
    lemma_bit_not,
    lemma_bit_single,
    lemma_bit_shl,
    lemma_bit_shr,
}

// ---------------------------------------------------------------------------------------------
// Words as sets of positions.

/// A word other than zero has a set bit, and `trailing_zeros` is the position of the lowest one.
pub proof fn lemma_lowest_bit(w: u64)
    requires
        w != 0,
    ensures
        0 <= u64_trailing_zeros(w) < 64,
        has_bit(w, u64_trailing_zeros(w) as int),
        forall|i: int| #[trigger] has_bit(w, i) ==> u64_trailing_zeros(w) <= i,
{
    reveal(has_bit);
    axiom_u64_trailing_zeros(w);
    assert forall|i: int| #[trigger] has_bit(w, i) implies u64_trailing_zeros(w) <= i by {
        let j = i as u64;
        assert((w >> j) & 1 == 1);
    }
}

/// The highest set bit of a word other than zero is at `63 - leading_zeros`.
pub proof fn lemma_highest_bit(w: u64)
    requires
        w != 0,
    ensures
        0 <= u64_leading_zeros(w) < 64,
        has_bit(w, 63 - u64_leading_zeros(w)),
        forall|i: int| #[trigger] has_bit(w, i) ==> i <= 63 - u64_leading_zeros(w),
{
    reveal(has_bit);
    axiom_u64_leading_zeros(w);
    let z = u64_leading_zeros(w) as u64;
    let h = (63 - z) as u64;
    assert((w >> h) & 1 != 0 ==> (w >> h) & 1 == 1) by (bit_vector);
    assert forall|i: int| #[trigger] has_bit(w, i) implies i <= 63 - u64_leading_zeros(w) by {
        let j = i as u64;
        assert((w >> j) & 1 == 1);
    }
}

/// `trailing_ones` is the length of the run of set bits that starts at bit 0.
pub proof fn lemma_low_run(w: u64)
    ensures
        0 <= u64_trailing_ones(w) <= 64,
        u64_trailing_ones(w) == 64 <==> w == u64::MAX,
        forall|i: int| 0 <= i < u64_trailing_ones(w) ==> #[trigger] has_bit(w, i),
        !has_bit(w, u64_trailing_ones(w) as int),
{
    reveal(has_bit);
    axiom_u64_trailing_ones(w);
    assert forall|i: int| 0 <= i < u64_trailing_ones(w) implies #[trigger] has_bit(w, i) by {
        let j = i as u64;
        assert((w >> j) & 1 == 1);
    }
}

/// `leading_ones` is the length of the run of set bits that ends at bit 63.
pub proof fn lemma_high_run(w: u64)
    ensures
        0 <= u64_leading_ones(w) <= 64,
        u64_leading_ones(w) == 64 <==> w == u64::MAX,
        forall|i: int| 64 - u64_leading_ones(w) <= i < 64 ==> #[trigger] has_bit(w, i),
        !has_bit(w, 63 - u64_leading_ones(w)),
{
    reveal(has_bit);
    axiom_u64_leading_ones(w);
    assert forall|i: int| 64 - u64_leading_ones(w) <= i < 64 implies #[trigger] has_bit(w, i) by {
        let j = i as u64;
        assert((w >> j) & 1 == 1);
    }
}

/// A word is determined by its bits.
pub proof fn lemma_word_ext(a: u64, b: u64)
    requires
        forall|i: int| 0 <= i < 64 ==> #[trigger] has_bit(a, i) == has_bit(b, i),
    ensures
        a == b,
{
    broadcast use group_word_bits;

    assert(a ^ b == 0 ==> a == b) by (bit_vector);
    if a ^ b != 0 {
        lemma_lowest_bit(a ^ b);
        let t = u64_trailing_zeros(a ^ b) as int;
        assert(has_bit(a, t) != has_bit(b, t));
    }
}

/// `w & m == m` says that `w` has every bit that `m` has.
pub proof fn lemma_covers(w: u64, m: u64)
    ensures
        w & m == m <==> forall|i: int| #[trigger] has_bit(m, i) ==> has_bit(w, i),
{
    broadcast use group_word_bits;

    if forall|i: int| #[trigger] has_bit(m, i) ==> has_bit(w, i) {
        lemma_word_ext(w & m, m);
    } else {
        let i = choose|i: int| #[trigger] has_bit(m, i) && !has_bit(w, i);
        assert(has_bit(w & m, i) != has_bit(m, i));
    }
}

/// `w & (w - 1)` drops the lowest set bit of `w` and keeps the others.
pub proof fn lemma_clear_lowest(w: u64)
    requires
        w != 0,
    ensures
        forall|i: int|
            #[trigger] has_bit(w & (w - 1) as u64, i) == (has_bit(w, i) && i != u64_trailing_zeros(
                w,
            )),
{
    lemma_lowest_bit(w);
    axiom_u64_trailing_zeros(w);
    let t = u64_trailing_zeros(w) as u64;
    let p = (w - 1) as u64;
    let z = (64 - t) as u64;
    assert(w << z == 0);
    assert forall|i: int|
        #[trigger] has_bit(w & (w - 1) as u64, i) == (has_bit(w, i) && i != u64_trailing_zeros(
            w,
        )) by {
        reveal(has_bit);
        let j = i as u64;
        assert((w >> t) & 1 == 1 && t < 64 && j < 64 && w << z == 0 && z == 64 - t && p == w - 1
            && w != 0 ==> (((w & p) >> j) & 1 == 1 <==> (w >> j) & 1 == 1 && j != t))
            by (bit_vector);
    }
}

/// What setting bit `b` changes, moved down to bit 0.
pub proof fn lemma_set_change(w: u64, b: usize)
    requires
        b < 64,
    ensures
        (w ^ (w | 1u64 << b)) >> b == (if has_bit(w, b as int) {
            0u64
        } else {
            1u64
        }),
{
    reveal(has_bit);
    let c = b as u64;
    assert(c < 64 ==> (w ^ (w | 1u64 << c)) >> c == (if (w >> c) & 1 == 1 {
        0u64
    } else {
        1u64
    })) by (bit_vector);
}

/// What clearing bit `b` changes, moved down to bit 0.
pub proof fn lemma_clear_change(w: u64, b: usize)
    requires
        b < 64,
    ensures
        (w ^ (w & !(1u64 << b))) >> b == (if has_bit(w, b as int) {
            1u64
        } else {
            0u64
        }),
{
    reveal(has_bit);
    let c = b as u64;
    assert(c < 64 ==> (w ^ (w & !(1u64 << c))) >> c == (if (w >> c) & 1 == 1 {
        1u64
    } else {
        0u64
    })) by (bit_vector);
}

/// Bit `b` on its own, moved down to bit 0.
pub proof fn lemma_extract(w: u64, b: usize)
    requires
        b < 64,
    ensures
        (w & 1u64 << b) >> b == (if has_bit(w, b as int) {
            1u64
        } else {
            0u64
        }),
        w & 1u64 << b != 0 <==> has_bit(w, b as int),
{
    reveal(has_bit);
    let c = b as u64;
    assert(c < 64 ==> (w & 1u64 << c) >> c == (if (w >> c) & 1 == 1 {
        1u64
    } else {
        0u64
    })) by (bit_vector);
    assert(c < 64 ==> (w & 1u64 << c != 0 <==> (w >> c) & 1 == 1)) by (bit_vector);
}

/// The set bits of a word form a finite set of at most 64 positions.
pub proof fn lemma_positions_finite(w: u64)
    ensures
        bit_positions(w).finite(),
        ones(w) <= 64,
{
    broadcast use group_word_bits;

    lemma_int_range(0, 64);
    assert(bit_positions(w).subset_of(set_int_range(0, 64)));
    lemma_len_subset(bit_positions(w), set_int_range(0, 64));
}

// ---------------------------------------------------------------------------------------------
// Executable word helpers.

/// The index of the word that holds `index`.
#[inline]
pub fn key(index: u16) -> (r: usize)
    ensures
        r == index as int / 64,
{
    index as usize / 64
}

/// The position of `index` within its word.
#[inline]
pub fn bit(index: u16) -> (r: usize)
    ensures
        r == index as int % 64,
{
    index as usize % 64
}

/// The word whose set bits are those at `bit` and above.
pub(crate) fn mask_from(bit: usize) -> (r: u64)
    requires
        bit < 64,
    ensures
        forall|i: int| #[trigger] has_bit(r, i) == (bit <= i < 64),
{
    broadcast use group_word_bits;

    u64::MAX << bit
}

/// The word whose set bits are those at `bit` and below.
pub(crate) fn mask_to(bit: usize) -> (r: u64)
    requires
        bit < 64,
    ensures
        forall|i: int| #[trigger] has_bit(r, i) == (0 <= i <= bit),
{
    broadcast use group_word_bits;

    u64::MAX >> (63 - bit)
}

/// `rest` is what is left of `value` from position `p` on, and `n` set bits of `value` lie below.
pub open spec fn is_upper_cut(value: u64, rest: u64, p: int, n: nat) -> bool {
    &&& 0 <= p <= 64
    &&& ones_below(value, p) == n
    &&& forall|i: int| #[trigger] has_bit(rest, i) == (has_bit(value, i) && p <= i)
}

/// `rest` is what is left of `value` below position `p`, and `n` set bits of `value` lie from there
/// on.
pub open spec fn is_lower_cut(value: u64, rest: u64, p: int, n: nat) -> bool {
    &&& 0 <= p <= 64
    &&& ones_below(value, p) + n == ones(value)
    &&& forall|i: int| #[trigger] has_bit(rest, i) == (has_bit(value, i) && i < p)
}

/// `value` without its `n` lowest set bits.
pub(crate) fn drop_lowest(value: u64, n: u64) -> (r: u64)
    requires
        n <= ones(value),
    ensures
        exists|p: int| is_upper_cut(value, r, p, n as nat),
{
    broadcast use group_word_bits;

    let mut rest: u64 = value;
    let ghost mut p: int = 0;
    proof {
        lemma_positions_finite(value);
        assert(bit_positions(value).filter(|i: int| i < 0) =~= Set::empty());
    }
    for k in 0..n
        invariant
            n <= ones(value),
            bit_positions(value).finite(),
            is_upper_cut(value, rest, p, k as nat),
    {
        proof {
            lemma_upper_rest(value, rest, p, k as nat);
            lemma_clear_lowest(rest);
            let t = u64_trailing_zeros(rest) as int;
            let low = bit_positions(value).filter(|i: int| i < p);
            assert(bit_positions(value).filter(|i: int| i < t + 1) =~= low.insert(t));
            p = t + 1;
        }
        rest = rest & (rest - 1);
    }
    assert(is_upper_cut(value, rest, p, n as nat));
    rest
}

/// `value` without its `n` highest set bits.
pub(crate) fn drop_highest(value: u64, n: u64) -> (r: u64)
    requires
        n <= ones(value),
    ensures
        exists|p: int| is_lower_cut(value, r, p, n as nat),
{
    broadcast use group_word_bits;

    let mut rest: u64 = value;
    let ghost mut p: int = 64;
    proof {
        lemma_positions_finite(value);
        assert(bit_positions(value).filter(|i: int| i < 64) =~= bit_positions(value));
    }
    for k in 0..n
        invariant
            n <= ones(value),
            bit_positions(value).finite(),
            is_lower_cut(value, rest, p, k as nat),
    {
        broadcast use group_word_bits;

        proof {
            lemma_lower_rest(value, rest, p, k as nat);
            let h = 63 - u64_leading_zeros(rest);
            let low = bit_positions(value).filter(|i: int| i < h);
            assert(bit_positions(value).filter(|i: int| i < p) =~= low.insert(h));
            p = h;
        }
        let top: usize = 63 - rest.leading_zeros() as usize;
        rest = rest & !(1u64 << top);
    }
    assert(is_lower_cut(value, rest, p, n as nat));
    rest
}

/// The position of the set bit of `value` that has `n` set bits below it, or 64 when `value` has
/// exactly `n` set bits.
pub fn select(value: u64, n: u64) -> (r: u64)
    requires
        n <= ones(value),
    ensures
        n < ones(value) ==> has_bit(value, r as int) && ones_below(value, r as int) == n,
        n == ones(value) ==> r == 64,
{
    broadcast use group_word_bits;

    let rest = drop_lowest(value, n);
    proof {
        let p = choose|p: int| is_upper_cut(value, rest, p, n as nat);
        axiom_u64_trailing_zeros(rest);
        lemma_positions_finite(value);
        if n < ones(value) {
            lemma_upper_rest(value, rest, p, n as nat);
            let t = u64_trailing_zeros(rest) as int;
            assert(bit_positions(value).filter(|i: int| i < p) =~= bit_positions(value).filter(
                |i: int| i < t,
            ));
        } else {
            let low = bit_positions(value).filter(|i: int| i < p);
            lemma_subset_equality(low, bit_positions(value));
            if rest != 0 {
                lemma_lowest_bit(rest);
                assert(has_bit(rest, u64_trailing_zeros(rest) as int));
                assert(bit_positions(value).contains(u64_trailing_zeros(rest) as int));
                assert(low.contains(u64_trailing_zeros(rest) as int));
            }
        }
    }
    rest.trailing_zeros() as u64
}

/// While fewer than all set bits of `value` lie below `p`, the lowest one from `p` on is the lowest
/// one of what is left.
proof fn lemma_upper_rest(value: u64, rest: u64, p: int, n: nat)
    requires
        is_upper_cut(value, rest, p, n),
        n < ones(value),
    ensures
        rest != 0,
        p <= u64_trailing_zeros(rest) < 64,
        has_bit(value, u64_trailing_zeros(rest) as int),
        forall|i: int| #[trigger] has_bit(value, i) && p <= i ==> u64_trailing_zeros(rest) <= i,
{
    broadcast use group_word_bits;

    if rest == 0 {
        assert forall|i: int| has_bit(value, i) implies i < p by {
            assert(!has_bit(rest, i));
        }
        assert(bit_positions(value).filter(|i: int| i < p) =~= bit_positions(value));
    }
    lemma_lowest_bit(rest);
    assert(has_bit(rest, u64_trailing_zeros(rest) as int));
    assert forall|i: int| #[trigger] has_bit(value, i) && p <= i implies u64_trailing_zeros(rest)
        <= i by {
        assert(has_bit(rest, i));
    }
}

/// While a set bit of `value` lies below `p`, the highest one below `p` is the highest one of what
/// is left.
proof fn lemma_lower_rest(value: u64, rest: u64, p: int, n: nat)
    requires
        is_lower_cut(value, rest, p, n),
        n < ones(value),
    ensures
        rest != 0,
        0 <= u64_leading_zeros(rest) < 64,
        0 <= 63 - u64_leading_zeros(rest) < p,
        has_bit(value, 63 - u64_leading_zeros(rest)),
        forall|i: int| #[trigger] has_bit(value, i) && i < p ==> i <= 63 - u64_leading_zeros(rest),
{
    broadcast use group_word_bits;

    if rest == 0 {
        assert forall|i: int| has_bit(value, i) implies p <= i by {
            assert(!has_bit(rest, i));
        }
        assert(bit_positions(value).filter(|i: int| i < p) =~= Set::empty());
    }
    lemma_highest_bit(rest);
    assert(has_bit(rest, 63 - u64_leading_zeros(rest)));
    assert forall|i: int| #[trigger] has_bit(value, i) && i < p implies i <= 63
        - u64_leading_zeros(rest) by {
        assert(has_bit(rest, i));
    }
}

/// Shifting a word up until position `b` is the top one leaves the set bits up to `b`.
pub proof fn lemma_shl_ones(w: u64, b: usize)
    requires
        b < 64,
    ensures
        ones(w << (63 - b) as usize) == ones_below(w, b + 1),
{
    broadcast use group_word_bits;

    let s = (63 - b) as usize;
    let f = |i: int| i - s;
    let low = bit_positions(w).filter(|i: int| i < b + 1);
    lemma_positions_finite(w << s);
    assert forall|i: int| low.contains(i) implies bit_positions(w << s).map(f).contains(i) by {
        assert(bit_positions(w << s).contains(i + s));
        assert(f(i + s) == i);
    }
    assert(bit_positions(w << s).map(f) =~= low);
    lemma_map_size(bit_positions(w << s), low, f);
}

} // verus!
