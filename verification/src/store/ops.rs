//! Set operations on two stores.
use vstd::prelude::*;
use vstd::std_specs::bits::*;

use core::ops::{BitAndAssign, BitOrAssign, BitXorAssign, SubAssign};

use crate::array_store::ArrayStore;
use crate::interval::Interval;
use crate::model;
use crate::model::BITMAP_LENGTH;
use crate::store::BitmapStore;
use crate::word;
use crate::word::{bit, key, mask_from, mask_to};

verus! {

/// Replaces each word of `bits1` by what `op` makes of it and the word of `bits2` at the same
/// index.
fn op_bitmaps(bits1: &mut BitmapStore, bits2: &BitmapStore, op: impl Fn(u64, u64) -> u64)
    requires
        forall|a: u64, b: u64| #[trigger] op.requires((a, b)),
    ensures
        final(bits1).wf(),
        forall|k: int|
            0 <= k < BITMAP_LENGTH ==> op.ensures(
                (old(bits1).words()[k], bits2.words()[k]),
                #[trigger] final(bits1).words()[k],
            ),
        final(bits1)@.len() == 0 ==> final(bits1).cached_words() == old(bits1).cached_words(),
{
    let ghost before = bits1.bits@;
    bits1.len = 0;
    proof {
        model::lemma_count_ends(model::word_set(bits1.bits@));
    }
    for k in 0..BITMAP_LENGTH
        invariant
            forall|a: u64, b: u64| #[trigger] op.requires((a, b)),
            bits1.cached_words() == old(bits1).cached_words(),
            bits1.len == model::between(model::word_set(bits1.bits@), 0, 64 * k).len(),
            forall|j: int|
                0 <= j < k ==> op.ensures((before[j], bits2.bits@[j]), #[trigger] bits1.bits@[j]),
            forall|j: int| k <= j < BITMAP_LENGTH ==> #[trigger] bits1.bits@[j] == before[j],
    {
        let ghost words = bits1.bits@;
        let w = op(bits1.bits[k], bits2.bits[k]);
        bits1.bits[k] = w;
        proof {
            model::lemma_prefix_members(words, bits1.bits@, k as int);
            model::lemma_count_step(bits1.bits@, k as int);
            model::lemma_len_bound(
                model::between(model::word_set(bits1.bits@), 0, 64 * (k + 1)),
            );
        }
        bits1.len = bits1.len + w.count_ones() as u64;
    }
    proof {
        model::lemma_count_ends(model::word_set(bits1.bits@));
        if bits1.len > 0 {
            let j = model::lemma_nonzero_word(bits1.bits@);
        }
    }
    if bits1.len > 0 {
        let (first, last) = BitmapStore::compute_word_bounds(&bits1.bits);
        bits1.first_nonzero_word = first;
        bits1.last_nonzero_word = last;
    }
}

/// The bits that are set in `l` or in `r`.
fn or_words(l: u64, r: u64) -> (o: u64)
    ensures
        o == l | r,
{
    l | r
}

/// The bits that are set in both `l` and `r`.
fn and_words(l: u64, r: u64) -> (o: u64)
    ensures
        o == l & r,
{
    l & r
}

/// The bits that are set in `l` but not in `r`.
fn subtract_words(l: u64, r: u64) -> (o: u64)
    ensures
        o == l & !r,
{
    l & !r
}

/// The bits that are set in one of `l` and `r` only.
fn xor_words(l: u64, r: u64) -> (o: u64)
    ensures
        o == l ^ r,
{
    l ^ r
}

impl BitOrAssign<&BitmapStore> for BitmapStore {
    /// Adds all members of `rhs`.
    fn bitor_assign(&mut self, rhs: &BitmapStore)
        ensures
            final(self).wf(),
            final(self)@ == old(self)@.union(rhs@),
            final(self)@.len() == 0 ==> final(self).cached_words() == old(self).cached_words(),
    {
        broadcast use word::group_word_bits;

        op_bitmaps(self, rhs, or_words);
        assert(self@ =~= old(self)@.union(rhs@));
    }
}

impl BitAndAssign<&BitmapStore> for BitmapStore {
    /// Keeps only the members of `rhs`.
    fn bitand_assign(&mut self, rhs: &BitmapStore)
        ensures
            final(self).wf(),
            final(self)@ == old(self)@.intersect(rhs@),
            final(self)@.len() == 0 ==> final(self).cached_words() == old(self).cached_words(),
    {
        broadcast use word::group_word_bits;

        op_bitmaps(self, rhs, and_words);
        assert(self@ =~= old(self)@.intersect(rhs@));
    }
}

impl SubAssign<&BitmapStore> for BitmapStore {
    /// Removes all members of `rhs`.
    fn sub_assign(&mut self, rhs: &BitmapStore)
        ensures
            final(self).wf(),
            final(self)@ == old(self)@.difference(rhs@),
            final(self)@.len() == 0 ==> final(self).cached_words() == old(self).cached_words(),
    {
        broadcast use word::group_word_bits;

        op_bitmaps(self, rhs, subtract_words);
        assert(self@ =~= old(self)@.difference(rhs@));
    }
}

impl BitXorAssign<&BitmapStore> for BitmapStore {
    /// Adds the members of `rhs` that are missing and removes the others.
    fn bitxor_assign(&mut self, rhs: &BitmapStore)
        ensures
            final(self).wf(),
            final(self)@ == model::symmetric_difference(old(self)@, rhs@),
            final(self)@.len() == 0 ==> final(self).cached_words() == old(self).cached_words(),
    {
        broadcast use word::group_word_bits;

        op_bitmaps(self, rhs, xor_words);
        assert(self@ =~= model::symmetric_difference(old(self)@, rhs@));
    }
}

impl BitOrAssign<&ArrayStore> for BitmapStore {
    /// Adds all values of `rhs`.
    fn bitor_assign(&mut self, rhs: &ArrayStore)
        requires
            old(self).wf(),
        ensures
            final(self).wf(),
            final(self)@ == old(self)@.union(rhs@.to_set()),
            final(self)@.len() == 0 ==> final(self).cached_words() == old(self).cached_words(),
    {
        let values = rhs.as_slice();
        proof {
            model::lemma_first_values_ends(values@);
            assert(self@ =~= self@.union(model::first_values(values@, 0)));
        }
        for n in 0..values.len()
            invariant
                self.len == self@.len(),
                self.cached_words() == old(self).cached_words(),
                self@ == old(self)@.union(model::first_values(values@, n as int)),
        {
            broadcast use {word::group_word_bits, model::lemma_finite};

            let ghost s = self@;
            let index = values[n];
            let (key, bit) = (key(index), bit(index));
            let old_w = self.bits[key];
            let new_w = old_w | (1u64 << bit);
            self.bits[key] = new_w;
            proof {
                word::lemma_set_change(old_w, bit);
                model::lemma_first_values_step(values@, n as int);
                assert(self@ =~= s.insert(index));
                assert(self@ =~= old(self)@.union(model::first_values(values@, n + 1)));
                model::lemma_len_bound(self@);
            }
            self.len = self.len + ((old_w ^ new_w) >> bit);
        }
        proof {
            if self.len > 0 {
                let j = model::lemma_nonzero_word(self.bits@);
            }
        }
        if self.len > 0 {
            let (first, last) = Self::compute_word_bounds(&self.bits);
            self.first_nonzero_word = first;
            self.last_nonzero_word = last;
        }
    }
}

impl SubAssign<&ArrayStore> for BitmapStore {
    /// Removes all values of `rhs`.
    fn sub_assign(&mut self, rhs: &ArrayStore)
        requires
            old(self).wf(),
        ensures
            final(self).wf(),
            final(self)@ == old(self)@.difference(rhs@.to_set()),
            final(self)@.len() == 0 ==> final(self).cached_words() == old(self).cached_words(),
    {
        let values = rhs.as_slice();
        proof {
            model::lemma_first_values_ends(values@);
            assert(self@ =~= self@.difference(model::first_values(values@, 0)));
        }
        for n in 0..values.len()
            invariant
                self.len == self@.len(),
                self.cached_words() == old(self).cached_words(),
                self@ == old(self)@.difference(model::first_values(values@, n as int)),
        {
            broadcast use {word::group_word_bits, model::lemma_finite};

            let ghost s = self@;
            let index = values[n];
            let (key, bit) = (key(index), bit(index));
            let old_w = self.bits[key];
            let new_w = old_w & !(1u64 << bit);
            self.bits[key] = new_w;
            proof {
                word::lemma_clear_change(old_w, bit);
                model::lemma_first_values_step(values@, n as int);
                assert(self@ =~= s.remove(index));
                assert(self@ =~= old(self)@.difference(model::first_values(values@, n + 1)));
            }
            self.len = self.len - ((old_w ^ new_w) >> bit);
        }
        proof {
            if self.len > 0 {
                let j = model::lemma_nonzero_word(self.bits@);
            }
        }
        if self.len > 0 {
            let (first, last) = Self::compute_word_bounds(&self.bits);
            self.first_nonzero_word = first;
            self.last_nonzero_word = last;
        }
    }
}

impl BitXorAssign<&ArrayStore> for BitmapStore {
    /// Adds the values of `rhs` that are missing and removes the others.
    fn bitxor_assign(&mut self, rhs: &ArrayStore)
        requires
            old(self).wf(),
            rhs.wf(),
        ensures
            final(self).wf(),
            final(self)@ == model::symmetric_difference(old(self)@, rhs@.to_set()),
            final(self)@.len() == 0 ==> final(self).cached_words() == old(self).cached_words(),
    {
        let values = rhs.as_slice();
        proof {
            model::lemma_first_values_ends(values@);
            model::lemma_len_bound(self@);
            assert(self@ =~= model::symmetric_difference(self@, model::first_values(values@, 0)));
        }
        let mut len = self.len as i64;
        for n in 0..values.len()
            invariant
                model::is_ascending(values@),
                len == self@.len(),
                self.cached_words() == old(self).cached_words(),
                self@ == model::symmetric_difference(
                    old(self)@,
                    model::first_values(values@, n as int),
                ),
        {
            broadcast use {word::group_word_bits, model::lemma_finite};

            let ghost s = self@;
            let index = values[n];
            let (key, bit) = (key(index), bit(index));
            let old_w = self.bits[key];
            let new_w = old_w ^ (1u64 << bit);
            self.bits[key] = new_w;
            proof {
                word::lemma_extract(old_w, bit);
                model::lemma_first_values_step(values@, n as int);
                assert(!model::first_values(values@, n as int).contains(index));
                if s.contains(index) {
                    assert(self@ =~= s.remove(index));
                } else {
                    assert(self@ =~= s.insert(index));
                }
                assert(self@ =~= model::symmetric_difference(
                    old(self)@,
                    model::first_values(values@, n + 1),
                ));
                model::lemma_len_bound(self@);
            }
            len = len + (1 - 2 * ((old_w & (1u64 << bit)) >> bit) as i64);
        }
        self.len = len as u64;
        proof {
            if self.len > 0 {
                let j = model::lemma_nonzero_word(self.bits@);
            }
        }
        if self.len > 0 {
            let (first, last) = Self::compute_word_bounds(&self.bits);
            self.first_nonzero_word = first;
            self.last_nonzero_word = last;
        }
    }
}

impl BitmapStore {
    /// Whether no value is a member of both stores.
    pub fn is_disjoint(&self, other: &BitmapStore) -> (r: bool)
        ensures
            r == self@.disjoint(other@),
    {
        for k in 0..BITMAP_LENGTH
            invariant
                forall|j: int|
                    0 <= j < k ==> #[trigger] self.bits@[j] & #[trigger] other.bits@[j] == 0,
        {
            broadcast use word::group_word_bits;

            if self.bits[k] & other.bits[k] != 0 {
                proof {
                    let w = self.bits@[k as int] & other.bits@[k as int];
                    word::lemma_lowest_bit(w);
                    let t = u64_trailing_zeros(w) as int;
                    let x = (64 * k + t) as u16;
                    assert(x as int / 64 == k && x as int % 64 == t);
                    assert(self@.contains(x) && other@.contains(x));
                }
                return false;
            }
        }
        assert forall|x: u16| self@.contains(x) implies !other@.contains(x) by {
            let k = x as int / 64;
            assert(self.bits@[k] & other.bits@[k] == 0);
            word::lemma_bit_and(self.bits@[k], other.bits@[k], x as int % 64);
            word::lemma_bit_zero(x as int % 64);
        }
        true
    }

    /// Whether every member is a member of `other`.
    pub fn is_subset(&self, other: &Self) -> (r: bool)
        ensures
            r == self@.subset_of(other@),
    {
        for k in 0..BITMAP_LENGTH
            invariant
                forall|j: int|
                    0 <= j < k ==> #[trigger] other.bits@[j] & #[trigger] self.bits@[j]
                        == self.bits@[j],
        {
            proof {
                model::lemma_part_covered(other.bits@, k as int, self.bits@[k as int]);
            }
            if other.bits[k] & self.bits[k] != self.bits[k] {
                assert(model::word_part(k as int, self.bits@[k as int]).subset_of(self@));
                return false;
            }
        }
        assert forall|x: u16| self@.contains(x) implies other@.contains(x) by {
            let k = x as int / 64;
            assert(other.bits@[k] & self.bits@[k] == self.bits@[k]);
            model::lemma_part_covered(other.bits@, k, self.bits@[k]);
            assert(model::word_part(k, self.bits@[k]).contains(x));
        }
        true
    }

    /// The number of members that both stores have.
    pub fn intersection_len_bitmap(&self, other: &BitmapStore) -> (r: u64)
        ensures
            r == self@.intersect(other@).len(),
    {
        broadcast use word::group_word_bits;

        let ghost common = Seq::new(
            BITMAP_LENGTH as nat,
            |k: int| self.bits@[k] & other.bits@[k],
        );
        let mut total: u64 = 0;
        proof {
            model::lemma_count_ends(model::word_set(common));
        }
        for k in 0..BITMAP_LENGTH
            invariant
                common == Seq::new(
                    BITMAP_LENGTH as nat,
                    |k: int| self.bits@[k] & other.bits@[k],
                ),
                total == model::between(model::word_set(common), 0, 64 * k).len(),
        {
            proof {
                model::lemma_count_step(common, k as int);
                model::lemma_len_bound(model::between(model::word_set(common), 0, 64 * (k + 1)));
            }
            total = total + (self.bits[k] & other.bits[k]).count_ones() as u64;
        }
        assert(self@.intersect(other@) =~= model::word_set(common));
        total
    }

    /// The number of members that fall into `interval`.
    pub fn intersection_len_interval(&self, interval: &Interval) -> (r: u64)
        requires
            self.wf(),
            interval.wf(),
        ensures
            r == self@.intersect(model::range_set(interval.start, interval.end)).len(),
    {
        let start = interval.start();
        let end = interval.end();
        proof {
            assert(self@.intersect(model::range_set(start, end)) =~= model::between(
                self@,
                start as int,
                end + 1,
            ));
            model::lemma_count_ends(self@);
        }
        if interval.is_full() {
            return self.len();
        }
        let (start_id, start_bit) = (key(start), bit(start));
        let (end_id, end_bit) = (key(end), bit(end));
        let mut amount: u64 = 0;
        assert(model::between(self@, start as int, 64 * start_id) =~= Set::empty());
        for i in start_id..end_id + 1
            invariant
                start <= end,
                start == 64 * start_id + start_bit,
                start_bit < 64,
                end == 64 * end_id + end_bit,
                end_bit < 64,
                end_id < BITMAP_LENGTH,
                amount == model::between(
                    self@,
                    start as int,
                    if i <= end_id {
                        64 * i
                    } else {
                        end + 1
                    },
                ).len(),
        {
            broadcast use word::group_word_bits;

            let mut mask: u64 = u64::MAX;
            let ghost mut lo: int = 0;
            let ghost mut hi: int = 64;
            if i == start_id {
                mask = mask & mask_from(start_bit);
                proof {
                    lo = start_bit as int;
                }
            }
            if i == end_id {
                mask = mask & mask_to(end_bit);
                proof {
                    hi = end_bit + 1;
                }
            }
            proof {
                model::lemma_masked_word_len(self.bits@, i as int, mask, lo, hi);
                if i == start_id {
                    assert(model::between(self@, start as int, 64 * i) =~= Set::empty());
                } else {
                    model::lemma_between_split(self@, start as int, 64 * i, 64 * i + hi);
                }
                model::lemma_len_bound(model::between(self@, start as int, 64 * i + hi));
            }
            amount = amount + (self.bits[i] & mask).count_ones() as u64;
        }
        amount
    }

    /// The number of values of `other` that are members.
    pub fn intersection_len_array(&self, other: &ArrayStore) -> (r: u64)
        requires
            other.wf(),
        ensures
            r == self@.intersect(other@.to_set()).len(),
    {
        let values = other.as_slice();
        let mut total: u64 = 0;
        proof {
            model::lemma_first_values_ends(values@);
            assert(self@.intersect(model::first_values(values@, 0)) =~= Set::empty());
        }
        for n in 0..values.len()
            invariant
                model::is_ascending(values@),
                total == self@.intersect(model::first_values(values@, n as int)).len(),
        {
            broadcast use {word::group_word_bits, model::lemma_finite};

            let index = values[n];
            let (key, bit) = (key(index), bit(index));
            proof {
                let counted = self@.intersect(model::first_values(values@, n as int));
                let more = self@.intersect(model::first_values(values@, n + 1));
                word::lemma_extract(self.bits@[key as int], bit);
                model::lemma_first_values_step(values@, n as int);
                assert(!model::first_values(values@, n as int).contains(index));
                if self@.contains(index) {
                    assert(more =~= counted.insert(index));
                } else {
                    assert(more =~= counted);
                }
                model::lemma_len_bound(more);
            }
            total = total + ((self.bits[key] & (1u64 << bit)) >> bit);
        }
        total
    }
}

} // verus!
