//! Operations on whole ranges of values.
use vstd::prelude::*;
use vstd::set_lib::*;

use core::ops::RangeInclusive;

use crate::model;
use crate::model::BITMAP_LENGTH;
use crate::store::BitmapStore;
use crate::word;
use crate::word::{bit, key, mask_from, mask_to};

verus! {

/// `RangeInclusive::start` returns the lower bound of the range, which is the `start` of its view.
/// Nothing is said of what that bound is once the range has been iterated to its end.
pub assume_specification<Idx>[ RangeInclusive::<Idx>::start ](range: &RangeInclusive<Idx>) -> (r:
    &Idx)
    ensures
        *r == range@.start,
;

/// `RangeInclusive::end` returns the upper bound of the range, which is the `end` of its view.
/// Nothing is said of what that bound is once the range has been iterated to its end.
pub assume_specification<Idx>[ RangeInclusive::<Idx>::end ](range: &RangeInclusive<Idx>) -> (r:
    &Idx)
    ensures
        *r == range@.end,
;

impl BitmapStore {
    /// Adds all values of `range`; returns how many of them were missing.
    pub fn insert_range(&mut self, range: RangeInclusive<u16>) -> (r: u64)
        requires
            old(self).wf(),
            range@.start <= range@.end,
        ensures
            final(self).wf(),
            final(self)@ == old(self)@.union(model::range_set(range@.start, range@.end)),
            r == model::range_set(range@.start, range@.end).difference(old(self)@).len(),
            r == final(self)@.len() - old(self)@.len(),
    {
        broadcast use {word::group_word_bits, model::lemma_finite};

        let start = *range.start();
        let end = *range.end();
        let (start_key, start_bit) = (key(start), bit(start));
        let (end_key, end_bit) = (key(end), bit(end));
        let ghost before = self.bits@;
        let ghost old_set = self@;
        let mut existed: u32;
        if start_key == end_key {
            let mask = mask_from(start_bit) & mask_to(end_bit);
            existed = (self.bits[start_key] & mask).count_ones();
            self.bits[start_key] = self.bits[start_key] | mask;
            proof {
                model::lemma_masked_word_len(
                    before,
                    start_key as int,
                    mask,
                    start_bit as int,
                    end_bit + 1,
                );
                assert(self@ =~= old_set.union(model::range_set(start, end)));
            }
        } else {
            let mask = mask_from(start_bit);
            existed = (self.bits[start_key] & mask).count_ones();
            self.bits[start_key] = self.bits[start_key] | mask;
            proof {
                model::lemma_masked_word_len(before, start_key as int, mask, start_bit as int, 64);
            }
            for i in start_key + 1..end_key
                invariant
                    start_key < end_key < BITMAP_LENGTH,
                    start == 64 * start_key + start_bit,
                    start_bit < 64,
                    old_set == model::word_set(before),
                    existed == model::between(old_set, start as int, 64 * i).len(),
                    before.len() == BITMAP_LENGTH,
                    self.bits@[start_key as int] == before[start_key as int] | mask,
                    forall|k: int| start_key < k < i ==> #[trigger] self.bits@[k] == u64::MAX,
                    forall|k: int|
                        0 <= k < start_key || i <= k < BITMAP_LENGTH ==> #[trigger] self.bits@[k]
                            == before[k],
                    self.len == old(self).len,
                    self.first_nonzero_word == old(self).first_nonzero_word,
                    self.last_nonzero_word == old(self).last_nonzero_word,
            {
                proof {
                    model::lemma_word_len(before, i as int);
                    model::lemma_between_split(old_set, start as int, 64 * i, 64 * (i + 1));
                    model::lemma_len_bound(model::between(old_set, start as int, 64 * (i + 1)));
                }
                existed = existed + self.bits[i].count_ones();
                self.bits[i] = u64::MAX;
            }
            let mask = mask_to(end_bit);
            proof {
                model::lemma_masked_word_len(before, end_key as int, mask, 0, end_bit + 1);
                model::lemma_between_split(old_set, start as int, 64 * end_key, end + 1);
                model::lemma_len_bound(model::between(old_set, start as int, end + 1));
            }
            existed = existed + (self.bits[end_key] & mask).count_ones();
            self.bits[end_key] = self.bits[end_key] | mask;
            assert(self@ =~= old_set.union(model::range_set(start, end)));
        }
        proof {
            let r = model::range_set(start, end);
            model::lemma_range_len(start, end);
            model::lemma_union_range_len(old_set, start, end);
            model::lemma_len_bound(self@);
            assert(r.difference(old_set).disjoint(old_set));
            assert(old_set.union(r) =~= r.difference(old_set) + old_set);
            lemma_set_disjoint_lens(r.difference(old_set), old_set);
            if self@.len() == old_set.len() {
                lemma_subset_equality(old_set, self@);
                model::lemma_words_ext(self.bits@, before);
            }
            if old_set.len() == 0 {
                model::lemma_zero_words(before);
            }
            assert(self@.contains(start));
            assert(self@.contains(end));
            model::lemma_word_zero(self.bits@, start_key as int);
            model::lemma_word_zero(self.bits@, end_key as int);
        }
        let inserted = (end - start) as u64 + 1 - existed as u64;
        if inserted > 0 {
            let was_empty = self.len == 0;
            self.len = self.len + inserted;
            if was_empty {
                self.first_nonzero_word = start_key as u16;
                self.last_nonzero_word = end_key as u16;
            } else {
                if (start_key as u16) < self.first_nonzero_word {
                    self.first_nonzero_word = start_key as u16;
                }
                if (end_key as u16) > self.last_nonzero_word {
                    self.last_nonzero_word = end_key as u16;
                }
            }
        }
        inserted
    }

    /// Removes all values of `range`; returns how many of them were members. A range whose ends are
    /// out of order but fall into one word is empty.
    pub fn remove_range(&mut self, range: RangeInclusive<u16>) -> (r: u64)
        requires
            old(self).wf(),
            range@.start <= range@.end || range@.start as int / 64 == range@.end as int / 64,
        ensures
            final(self).wf(),
            final(self)@ == old(self)@.difference(model::range_set(range@.start, range@.end)),
            r == old(self)@.intersect(model::range_set(range@.start, range@.end)).len(),
            r == old(self)@.len() - final(self)@.len(),
            final(self)@.len() == 0 ==> final(self).cached_words() == old(self).cached_words(),
    {
        broadcast use {word::group_word_bits, model::lemma_finite};

        let start = *range.start();
        let end = *range.end();
        let (start_key, start_bit) = (key(start), bit(start));
        let (end_key, end_bit) = (key(end), bit(end));
        let ghost before = self.bits@;
        let ghost old_set = self@;
        let mut removed: u32;
        if start_key == end_key {
            let mask = mask_from(start_bit) & mask_to(end_bit);
            removed = (self.bits[start_key] & mask).count_ones();
            self.bits[start_key] = self.bits[start_key] & !mask;
            proof {
                let hi = if start <= end {
                    end_bit + 1
                } else {
                    start_bit as int
                };
                model::lemma_masked_word_len(before, start_key as int, mask, start_bit as int, hi);
                assert(model::between(old_set, start as int, 64 * start_key + hi)
                    =~= model::between(old_set, start as int, end + 1));
                assert(self@ =~= old_set.difference(model::range_set(start, end)));
            }
        } else {
            let mask = mask_from(start_bit);
            removed = (self.bits[start_key] & mask).count_ones();
            self.bits[start_key] = self.bits[start_key] & !mask;
            proof {
                model::lemma_masked_word_len(before, start_key as int, mask, start_bit as int, 64);
            }
            for i in start_key + 1..end_key
                invariant
                    start_key < end_key < BITMAP_LENGTH,
                    start == 64 * start_key + start_bit,
                    start_bit < 64,
                    old_set == model::word_set(before),
                    removed == model::between(old_set, start as int, 64 * i).len(),
                    before.len() == BITMAP_LENGTH,
                    self.bits@[start_key as int] == before[start_key as int] & !mask,
                    forall|k: int| start_key < k < i ==> #[trigger] self.bits@[k] == 0,
                    forall|k: int|
                        0 <= k < start_key || i <= k < BITMAP_LENGTH ==> #[trigger] self.bits@[k]
                            == before[k],
                    self.len == old(self).len,
                    self.first_nonzero_word == old(self).first_nonzero_word,
                    self.last_nonzero_word == old(self).last_nonzero_word,
            {
                proof {
                    model::lemma_word_len(before, i as int);
                    model::lemma_between_split(old_set, start as int, 64 * i, 64 * (i + 1));
                    model::lemma_len_bound(model::between(old_set, start as int, 64 * (i + 1)));
                }
                removed = removed + self.bits[i].count_ones();
                self.bits[i] = 0;
            }
            let mask = mask_to(end_bit);
            proof {
                model::lemma_masked_word_len(before, end_key as int, mask, 0, end_bit + 1);
                model::lemma_between_split(old_set, start as int, 64 * end_key, end + 1);
                model::lemma_len_bound(model::between(old_set, start as int, end + 1));
            }
            removed = removed + (self.bits[end_key] & mask).count_ones();
            self.bits[end_key] = self.bits[end_key] & !mask;
            assert(self@ =~= old_set.difference(model::range_set(start, end)));
        }
        proof {
            let r = model::range_set(start, end);
            model::lemma_difference_range_len(old_set, start, end);
            assert(old_set.intersect(r) =~= model::between(old_set, start as int, end + 1));
            if self@.len() == old_set.len() {
                lemma_subset_equality(self@, old_set);
                model::lemma_words_ext(self.bits@, before);
            }
            assert forall|k: int|
                0 <= k < BITMAP_LENGTH && before[k] == 0 implies #[trigger] self.bits@[k] == 0 by {
                model::lemma_zero_word_subset(self.bits@, before, k);
            }
        }
        let removed = removed as u64;
        self.len = self.len - removed;
        if removed > 0 && self.len > 0 {
            self.recompute_bounds_if_needed();
        }
        removed
    }

    /// Whether all values of `range` are members.
    pub fn contains_range(&self, range: RangeInclusive<u16>) -> (r: bool)
        requires
            self.wf(),
            range@.start <= range@.end,
        ensures
            r == model::range_set(range@.start, range@.end).subset_of(self@),
    {
        broadcast use {word::group_word_bits, model::lemma_finite};

        let start = *range.start();
        let end = *range.end();
        let ghost values = model::range_set(start, end);
        proof {
            model::lemma_range_len(start, end);
            if values.subset_of(self@) {
                lemma_len_subset(values, self@);
            }
        }
        if self.len < (end - start) as u64 + 1 {
            return false;
        }
        let (start_i, start_bit) = (key(start), bit(start));
        let (end_i, end_bit) = (key(end), bit(end));
        let start_mask = mask_from(start_bit);
        let end_mask = mask_to(end_bit);
        if start_i == end_i {
            let mask = start_mask & end_mask;
            proof {
                model::lemma_part_covered(self.bits@, start_i as int, mask);
                assert(values =~= model::word_part(start_i as int, mask));
            }
            return self.bits[start_i] & mask == mask;
        }
        proof {
            model::lemma_part_covered(self.bits@, start_i as int, start_mask);
            model::lemma_part_covered(self.bits@, end_i as int, end_mask);
            assert(model::word_part(start_i as int, start_mask).subset_of(values));
            assert(model::word_part(end_i as int, end_mask).subset_of(values));
        }
        if self.bits[start_i] & start_mask != start_mask {
            return false;
        }
        for k in start_i + 1..end_i
            invariant
                start_i < end_i < BITMAP_LENGTH,
                start_i == start as int / 64,
                end_i == end as int / 64,
                start == range@.start,
                end == range@.end,
                values == model::range_set(start, end),
                forall|j: int| start_i < j < k ==> #[trigger] self.bits@[j] == u64::MAX,
        {
            if self.bits[k] != u64::MAX {
                proof {
                    model::lemma_part_covered(self.bits@, k as int, u64::MAX);
                    let w = self.bits@[k as int];
                    assert(w & 0xffff_ffff_ffff_ffffu64 == w) by (bit_vector);
                    assert(model::word_part(k as int, u64::MAX).subset_of(values));
                }
                return false;
            }
        }
        proof {
            if self.bits@[end_i as int] & end_mask == end_mask {
                assert forall|x: u16| values.contains(x) implies self@.contains(x) by {
                    if x as int / 64 == start_i {
                        assert(model::word_part(start_i as int, start_mask).contains(x));
                    } else if x as int / 64 == end_i {
                        assert(model::word_part(end_i as int, end_mask).contains(x));
                    } else {
                        assert(self.bits@[x as int / 64] == u64::MAX);
                    }
                }
            }
        }
        self.bits[end_i] & end_mask == end_mask
    }
}

} // verus!
