//! Operations that go by the order of the members.
use vstd::prelude::*;

use crate::model;
use crate::model::BITMAP_LENGTH;
use crate::store::BitmapStore;
use crate::word;
use crate::word::{bit, drop_highest, drop_lowest, key};

verus! {

impl BitmapStore {
    /// The number of members that are at most `index`.
    pub fn rank(&self, index: u16) -> (r: u64)
        ensures
            r == model::count_below(self@, index + 1),
    {
        let (key, bit) = (key(index), bit(index));
        let mut total: u64 = 0;
        proof {
            model::lemma_count_ends(self@);
        }
        for k in 0..key
            invariant
                key < BITMAP_LENGTH,
                total == model::between(self@, 0, 64 * k).len(),
        {
            proof {
                model::lemma_count_step(self.bits@, k as int);
                model::lemma_len_bound(model::between(self@, 0, 64 * (k + 1)));
            }
            total = total + self.bits[k].count_ones() as u64;
        }
        proof {
            word::lemma_shl_ones(self.bits@[key as int], bit);
            model::lemma_partial_word_len(self.bits@, key as int, bit + 1);
            model::lemma_between_split(self@, 0, 64 * key, index + 1);
            model::lemma_count_below(self@, index + 1);
            model::lemma_len_bound(model::between(self@, 0, index + 1));
        }
        total + (self.bits[key] << (63 - bit)).count_ones() as u64
    }

    /// The member that has `n` members below it, or `None` when there is none.
    pub fn select(&self, n: u16) -> (r: Option<u16>)
        ensures
            r is Some <==> n < self@.len(),
            r matches Some(x) ==> self@.contains(x) && model::count_below(self@, x as int) == n,
    {
        let mut left: u64 = n as u64;
        proof {
            model::lemma_count_ends(self@);
        }
        for k in 0..BITMAP_LENGTH
            invariant
                left + model::between(self@, 0, 64 * k).len() == n,
        {
            let value = self.bits[k];
            let len = value.count_ones() as u64;
            proof {
                model::lemma_count_step(self.bits@, k as int);
            }
            if left < len {
                let p = word::select(value, left);
                proof {
                    broadcast use word::group_word_bits;

                    let x = (64 * k + p) as u16;
                    assert(word::has_bit(value, p as int));
                    assert(x as int / 64 == k && x as int % 64 == p);
                    assert(self@.contains(x));
                    model::lemma_partial_word_len(self.bits@, k as int, p as int);
                    model::lemma_between_split(self@, 0, 64 * k, x as int);
                    model::lemma_count_below(self@, x as int);
                    model::lemma_count_below_monotone(self@, x as int, 65536);
                }
                return Some((64 * k as u64 + p) as u16);
            }
            left = left - len;
        }
        proof {
            model::lemma_count_ends(self@);
        }
        None
    }

    /// Removes the `clear_bits` least members, or all when there are fewer.
    pub fn remove_smallest(&mut self, clear_bits: u64)
        requires
            old(self).wf(),
        ensures
            final(self).wf(),
            final(self)@ == model::without_smallest(old(self)@, clear_bits as nat),
            final(self)@.len() == 0 ==> final(self).cached_words() == old(self).cached_words(),
    {
        broadcast use {word::group_word_bits, model::lemma_finite};

        let ghost before = self.bits@;
        let ghost s = self@;
        if self.len < clear_bits {
            self.clear();
            proof {
                assert forall|x: u16| s.contains(x) implies model::count_below(s, x as int)
                    < clear_bits by {
                    model::lemma_count_below_monotone(s, x as int, 65536);
                }
                assert(self@ =~= model::without_smallest(s, clear_bits as nat));
            }
            return;
        }
        self.len = self.len - clear_bits;
        let mut left = clear_bits;
        let mut k: usize = 0;
        let ghost mut t: int = 0;
        proof {
            model::lemma_count_ends(s);
        }
        while left > 0
            invariant
                s == model::word_set(before),
                self.len == s.len() - clear_bits,
                self.cached_words() == old(self).cached_words(),
                k <= BITMAP_LENGTH,
                left + model::between(s, 0, t).len() == clear_bits,
                0 <= t <= 65536,
                left > 0 ==> t == 64 * k,
                left > 0 ==> forall|j: int|
                    k <= j < BITMAP_LENGTH ==> #[trigger] self.bits@[j] == before[j],
                self@ =~= s.filter(|x: u16| t <= x),
            decreases left + BITMAP_LENGTH - k,
        {
            broadcast use word::group_word_bits;

            let ghost words = self.bits@;
            let ghost low = t;
            proof {
                model::lemma_count_ends(s);
                model::lemma_count_step(before, k as int);
            }
            let count = self.bits[k].count_ones() as u64;
            if left < count {
                let rest = drop_lowest(self.bits[k], left);
                proof {
                    let w = self.bits@[k as int];
                    let p = choose|p: int| word::is_upper_cut(w, rest, p, left as nat);
                    model::lemma_partial_word_len(before, k as int, p);
                    model::lemma_between_split(s, 0, 64 * k, 64 * k + p);
                    t = 64 * k + p;
                }
                self.bits[k] = rest;
                left = 0;
            } else {
                self.bits[k] = 0;
                left = left - count;
                k = k + 1;
                proof {
                    t = 64 * k;
                }
            }
            assert forall|x: u16| #[trigger] self@.contains(x) == (s.contains(x) && t <= x) by {
                assert(model::word_set(words).contains(x) == (s.contains(x) && low <= x));
            }
        }
        proof {
            model::lemma_count_below(s, t);
            model::lemma_upper_threshold(s, t, clear_bits as nat);
            if self.len > 0 {
                let j = model::lemma_nonzero_word(self.bits@);
            }
        }
        if self.len > 0 {
            let (first, last) = Self::compute_word_bounds(&self.bits);
            self.first_nonzero_word = first;
            self.last_nonzero_word = last;
        }
    }

    /// Removes the `clear_bits` greatest members, or all when there are fewer.
    pub fn remove_biggest(&mut self, clear_bits: u64)
        requires
            old(self).wf(),
        ensures
            final(self).wf(),
            final(self)@ == model::without_biggest(old(self)@, clear_bits as nat),
            final(self)@.len() == 0 ==> final(self).cached_words() == old(self).cached_words(),
    {
        broadcast use {word::group_word_bits, model::lemma_finite};

        let ghost before = self.bits@;
        let ghost s = self@;
        if self.len < clear_bits {
            self.clear();
            proof {
                assert forall|x: u16| s.contains(x) implies model::count_above(s, x as int)
                    < clear_bits by {
                    model::lemma_count_above_monotone(s, -1, x as int);
                }
                assert(self@ =~= model::without_biggest(s, clear_bits as nat));
            }
            return;
        }
        self.len = self.len - clear_bits;
        let mut left = clear_bits;
        let mut k: usize = BITMAP_LENGTH;
        let ghost mut t: int = 65536;
        proof {
            assert(model::between(s, 65536, 65536) =~= Set::empty());
            model::lemma_count_ends(s);
        }
        while left > 0
            invariant
                s == model::word_set(before),
                self.len == s.len() - clear_bits,
                self.cached_words() == old(self).cached_words(),
                k <= BITMAP_LENGTH,
                left + model::between(s, t, 65536).len() == clear_bits,
                0 <= t <= 65536,
                left > 0 ==> t == 64 * k,
                left > 0 ==> forall|j: int| 0 <= j < k ==> #[trigger] self.bits@[j] == before[j],
                self@ =~= s.filter(|x: u16| x < t),
            decreases left + k,
        {
            broadcast use word::group_word_bits;

            let ghost words = self.bits@;
            proof {
                model::lemma_count_ends(s);
                model::lemma_between_split(s, 0, 64 * k, 65536);
            }
            k = k - 1;
            proof {
                model::lemma_word_len(before, k as int);
                model::lemma_between_split(s, 64 * k, 64 * k + 64, 65536);
            }
            let count = self.bits[k].count_ones() as u64;
            if left < count {
                let rest = drop_highest(self.bits[k], left);
                proof {
                    let w = self.bits@[k as int];
                    let p = choose|p: int| word::is_lower_cut(w, rest, p, left as nat);
                    model::lemma_partial_word_len(before, k as int, p);
                    model::lemma_between_split(s, 64 * k, 64 * k + p, 64 * k + 64);
                    model::lemma_between_split(s, 64 * k + p, 64 * k + 64, 65536);
                    t = 64 * k + p;
                }
                self.bits[k] = rest;
                left = 0;
            } else {
                self.bits[k] = 0;
                left = left - count;
                proof {
                    t = 64 * k;
                }
            }
            assert forall|x: u16| #[trigger] self@.contains(x) == (s.contains(x) && x < t) by {
                assert(model::word_set(words).contains(x) == (s.contains(x) && x < 64 * (k + 1)));
            }
        }
        proof {
            model::lemma_lower_threshold(s, t, clear_bits as nat);
            if self.len > 0 {
                let j = model::lemma_nonzero_word(self.bits@);
            }
        }
        if self.len > 0 {
            let (first, last) = Self::compute_word_bounds(&self.bits);
            self.first_nonzero_word = first;
            self.last_nonzero_word = last;
        }
    }
}

} // verus!
