//! Laws of single words: their bits, how many of them are set, and selecting among them.
use vstd::arithmetic::power2::*;
use vstd::bits::*;
use vstd::prelude::*;

use crate::word;

verus! {

/// Bit `i` of a word is what is left of it after division by a power of two, modulo two.
pub proof fn law_bit_by_division(w: u64, i: int)
    requires
        0 <= i < 64,
    ensures
        word::has_bit(w, i) <==> (w as nat / pow2(i as nat)) % 2 == 1,
{
    reveal(word::has_bit);
    let j = i as u64;
    lemma_u64_shr_is_div(w, j);
    let v = w >> j;
    assert(v & 1 == 1 <==> v % 2 == 1) by (bit_vector);
}

/// No bits lie below position 0, and all set bits lie below position 64.
pub proof fn law_ones_below_ends(w: u64)
    ensures
        word::ones_below(w, 0) == 0,
        word::ones_below(w, 64) == word::ones(w),
{
    broadcast use word::group_word_bits;

    assert(word::bit_positions(w).filter(|i: int| i < 0) =~= Set::empty());
    assert(word::bit_positions(w).filter(|i: int| i < 64) =~= word::bit_positions(w));
}

/// One position further up, one set bit more lies below when the bit that was passed is set.
pub proof fn law_ones_below_step(w: u64, p: int)
    requires
        0 <= p < 64,
    ensures
        word::ones_below(w, p + 1) == word::ones_below(w, p) + (w as nat / pow2(p as nat)) % 2,
{
    let below = word::bit_positions(w).filter(|i: int| i < p);
    let up_to = word::bit_positions(w).filter(|i: int| i < p + 1);
    law_bit_by_division(w, p);
    word::lemma_positions_finite(w);
    if word::has_bit(w, p) {
        assert(up_to =~= below.insert(p));
    } else {
        assert(up_to =~= below);
    }
}

/// Selecting within a word has one answer: two set bits with equally many set bits below them are
/// the same.
pub proof fn law_select_in_word_unique(w: u64, p: int, q: int)
    requires
        word::has_bit(w, p),
        word::has_bit(w, q),
        word::ones_below(w, p) == word::ones_below(w, q),
    ensures
        p == q,
{
    if p < q {
        lemma_ones_below_strict(w, p, q);
    } else if q < p {
        lemma_ones_below_strict(w, q, p);
    }
}

proof fn lemma_ones_below_strict(w: u64, p: int, q: int)
    requires
        word::has_bit(w, p),
        p < q,
    ensures
        word::ones_below(w, p) < word::ones_below(w, q),
{
    let below_p = word::bit_positions(w).filter(|i: int| i < p);
    let below_q = word::bit_positions(w).filter(|i: int| i < q);
    word::lemma_positions_finite(w);
    assert(below_p.insert(p).subset_of(below_q));
    vstd::set_lib::lemma_len_subset(below_p.insert(p), below_q);
}

} // verus!
