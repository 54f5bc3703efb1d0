//! A double-ended cursor over the members of a bitmap.
use vstd::prelude::*;
use vstd::std_specs::bits::*;

use core::ops::RangeInclusive;

use crate::model;
use crate::model::BITMAP_LENGTH;
use crate::word;
use crate::word::{bit, key, mask_from, mask_to};

verus! {

/// What a cursor can read words from: a borrowed or an owned array of words.
pub trait WordSource: Sized {
    /// The words that this source holds.
    spec fn words(&self) -> Seq<u64>;

    /// The words that this source holds.
    fn borrow_words(&self) -> (r: &[u64; BITMAP_LENGTH])
        ensures
            r@ == self.words(),
    ;

    /// Another source of the same words.
    fn duplicate(&self) -> (r: Self)
        ensures
            r.words() == self.words(),
    ;
}

impl<'a> WordSource for &'a [u64; BITMAP_LENGTH] {
    open spec fn words(&self) -> Seq<u64> {
        (**self)@
    }

    fn borrow_words(&self) -> (r: &[u64; BITMAP_LENGTH]) {
        *self
    }

    fn duplicate(&self) -> (r: Self) {
        *self
    }
}

impl WordSource for Box<[u64; BITMAP_LENGTH]> {
    open spec fn words(&self) -> Seq<u64> {
        (**self)@
    }

    fn borrow_words(&self) -> (r: &[u64; BITMAP_LENGTH]) {
        &**self
    }

    fn duplicate(&self) -> (r: Self) {
        Box::new(**self)
    }
}

/// A cursor over the members of a bitmap, in ascending order from the front and in descending order
/// from the back. The two ends never pass each other.
pub struct BitmapIter<B: WordSource> {
    /// The index of the front word.
    key: u16,
    /// What is left of the front word.
    value: u64,
    /// The index of the back word.
    key_back: u16,
    /// What is left of the back word; without meaning when it is the front word too.
    value_back: u64,
    bits: B,
}

/// The words that are left to visit when the front stands in word `key`, of which `value` is left,
/// and the back in word `key_back`, of which `value_back` is left.
pub open spec fn rest_words(
    words: Seq<u64>,
    key: int,
    value: u64,
    key_back: int,
    value_back: u64,
) -> Seq<u64> {
    Seq::new(
        BITMAP_LENGTH as nat,
        |k: int|
            if k == key {
                value
            } else if k == key_back {
                value_back
            } else if key < k < key_back {
                words[k]
            } else {
                0
            },
    )
}

/// The range from `start` to `end` is the first run of consecutive members of `s`.
pub open spec fn is_first_run(s: Set<u16>, start: u16, end: u16) -> bool {
    &&& start <= end
    &&& model::is_min(s, start)
    &&& model::range_set(start, end).subset_of(s)
    &&& end < u16::MAX ==> !s.contains((end + 1) as u16)
}

/// The range from `start` to `end` is the last run of consecutive members of `s`.
pub open spec fn is_last_run(s: Set<u16>, start: u16, end: u16) -> bool {
    &&& start <= end
    &&& model::is_max(s, end)
    &&& model::range_set(start, end).subset_of(s)
    &&& start > 0 ==> !s.contains((start - 1) as u16)
}

/// Moves the front on to the next word that is not zero, if there is one; tells whether there is.
fn advance_to_next_nonzero_word(
    key: &mut u16,
    value: &mut u64,
    bits: &[u64; BITMAP_LENGTH],
    key_back: &mut u16,
    value_back: &mut u64,
) -> (found: bool)
    requires
        *old(key) <= *old(key_back) < BITMAP_LENGTH,
    ensures
        *final(key) <= *final(key_back) < BITMAP_LENGTH,
        rest_words(
            bits@,
            *final(key) as int,
            *final(value),
            *final(key_back) as int,
            *final(value_back),
        ) == rest_words(
            bits@,
            *old(key) as int,
            *old(value),
            *old(key_back) as int,
            *old(value_back),
        ),
        found == (*final(value) != 0),
        !found ==> *final(key) == *final(key_back),
{
    let ghost rest = rest_words(bits@, *key as int, *value, *key_back as int, *value_back);
    while *value == 0 && *key < *key_back
        invariant
            *key <= *key_back < BITMAP_LENGTH,
            rest == rest_words(bits@, *key as int, *value, *key_back as int, *value_back),
        decreases *key_back - *key,
    {
        *key = *key + 1;
        if *key == *key_back {
            *value = *value_back;
            *value_back = 0;
        } else {
            *value = bits[*key as usize];
        }
        assert(rest =~= rest_words(bits@, *key as int, *value, *key_back as int, *value_back));
    }
    *value != 0
}

/// Moves the back on to the next word that is not zero, if there is one; tells whether there is.
fn advance_back_to_next_nonzero_word(
    key: &mut u16,
    value: &mut u64,
    bits: &[u64; BITMAP_LENGTH],
    key_back: &mut u16,
    value_back: &mut u64,
) -> (found: bool)
    requires
        *old(key) <= *old(key_back) < BITMAP_LENGTH,
    ensures
        *final(key) <= *final(key_back) < BITMAP_LENGTH,
        rest_words(
            bits@,
            *final(key) as int,
            *final(value),
            *final(key_back) as int,
            *final(value_back),
        ) == rest_words(
            bits@,
            *old(key) as int,
            *old(value),
            *old(key_back) as int,
            *old(value_back),
        ),
        found == ((if *final(key) < *final(key_back) {
            *final(value_back)
        } else {
            *final(value)
        }) != 0),
        !found ==> *final(key) == *final(key_back),
{
    let ghost rest = rest_words(bits@, *key as int, *value, *key_back as int, *value_back);
    while *key < *key_back && *value_back == 0
        invariant
            *key <= *key_back < BITMAP_LENGTH,
            rest == rest_words(bits@, *key as int, *value, *key_back as int, *value_back),
        decreases *key_back - *key,
    {
        *key_back = *key_back - 1;
        if *key_back > *key {
            *value_back = bits[*key_back as usize];
        }
        assert(rest =~= rest_words(bits@, *key as int, *value, *key_back as int, *value_back));
    }
    *key < *key_back || *value != 0
}

impl<B: WordSource> View for BitmapIter<B> {
    type V = Set<u16>;

    /// The members that are left to visit.
    open spec fn view(&self) -> Set<u16> {
        model::word_set(self.rest())
    }
}

impl<B: WordSource> BitmapIter<B> {
    /// The words that are left to visit.
    pub closed spec fn rest(&self) -> Seq<u64> {
        rest_words(
            self.bits.words(),
            self.key as int,
            self.value,
            self.key_back as int,
            self.value_back,
        )
    }

    /// The front stands in no later word than the back.
    pub closed spec fn wf(&self) -> bool {
        self.key <= self.key_back < BITMAP_LENGTH
    }

    /// A cursor over all members that the words of `bits` hold.
    pub(crate) fn new(bits: B) -> (r: BitmapIter<B>)
        ensures
            r.wf(),
            r@ == model::word_set(bits.words()),
    {
        let words = bits.borrow_words();
        let value = words[0];
        let value_back = words[BITMAP_LENGTH - 1];
        let r = BitmapIter {
            key: 0,
            value,
            key_back: BITMAP_LENGTH as u16 - 1,
            value_back,
            bits,
        };
        assert(r.rest() =~= bits.words());
        r
    }

    /// The least member that is left, which is then no longer left.
    pub fn next(&mut self) -> (r: Option<u16>)
        requires
            old(self).wf(),
        ensures
            final(self).wf(),
            r is None <==> old(self)@ == Set::<u16>::empty(),
            r is None ==> final(self)@ == Set::<u16>::empty(),
            r matches Some(x) ==> {
                &&& model::is_min(old(self)@, x)
                &&& final(self)@ == old(self)@.remove(x)
            },
    {
        broadcast use word::group_word_bits;

        let found = advance_to_next_nonzero_word(
            &mut self.key,
            &mut self.value,
            self.bits.borrow_words(),
            &mut self.key_back,
            &mut self.value_back,
        );
        if !found {
            assert(self@ =~= Set::<u16>::empty());
            return None;
        }
        let ghost rest = self.rest();
        let index = self.value.trailing_zeros() as u16;
        proof {
            model::lemma_min_member(rest, self.key as int);
            word::lemma_clear_lowest(self.value);
        }
        self.value = self.value & (self.value - 1);
        assert(self@ =~= model::word_set(rest).remove((64 * self.key + index) as u16));
        Some(64 * self.key + index)
    }

    /// The least member that is left.
    pub fn peek(&self) -> (r: Option<u16>)
        requires
            self.wf(),
        ensures
            r is None <==> self@ == Set::<u16>::empty(),
            r matches Some(x) ==> model::is_min(self@, x),
    {
        broadcast use word::group_word_bits;

        let mut key = self.key;
        let mut value = self.value;
        let mut key_back = self.key_back;
        let mut value_back = self.value_back;
        let found = advance_to_next_nonzero_word(
            &mut key,
            &mut value,
            self.bits.borrow_words(),
            &mut key_back,
            &mut value_back,
        );
        if !found {
            assert(self@ =~= Set::<u16>::empty());
            return None;
        }
        proof {
            model::lemma_min_member(self.rest(), key as int);
        }
        Some(64 * key + value.trailing_zeros() as u16)
    }

    /// What is left of the word in which the back stands.
    fn back_word(&self) -> (r: u64)
        requires
            self.wf(),
        ensures
            r == self.rest()[self.key_back as int],
    {
        if self.key < self.key_back {
            self.value_back
        } else {
            self.value
        }
    }

    /// Replaces what is left of the word in which the back stands.
    fn set_back_word(&mut self, w: u64)
        requires
            old(self).wf(),
        ensures
            final(self).wf(),
            final(self).key == old(self).key,
            final(self).key_back == old(self).key_back,
            final(self).bits == old(self).bits,
            final(self).rest() == old(self).rest().update(old(self).key_back as int, w),
    {
        if self.key < self.key_back {
            self.value_back = w;
        } else {
            self.value = w;
        }
        assert(self.rest() =~= old(self).rest().update(old(self).key_back as int, w));
    }

    /// The greatest member that is left, which is then no longer left.
    pub fn next_back(&mut self) -> (r: Option<u16>)
        requires
            old(self).wf(),
        ensures
            final(self).wf(),
            r is None <==> old(self)@ == Set::<u16>::empty(),
            r is None ==> final(self)@ == Set::<u16>::empty(),
            r matches Some(x) ==> {
                &&& model::is_max(old(self)@, x)
                &&& final(self)@ == old(self)@.remove(x)
            },
    {
        broadcast use word::group_word_bits;

        let found = advance_back_to_next_nonzero_word(
            &mut self.key,
            &mut self.value,
            self.bits.borrow_words(),
            &mut self.key_back,
            &mut self.value_back,
        );
        if !found {
            assert(self@ =~= Set::<u16>::empty());
            return None;
        }
        let ghost rest = self.rest();
        let value = self.back_word();
        proof {
            model::lemma_max_member(rest, self.key_back as int);
        }
        let index: u16 = 63 - value.leading_zeros() as u16;
        let top: usize = index as usize;
        self.set_back_word(value & !(1u64 << top));
        assert(self@ =~= model::word_set(rest).remove((64 * self.key_back + index) as u16));
        Some(64 * self.key_back + index)
    }

    /// The greatest member that is left.
    pub fn peek_back(&self) -> (r: Option<u16>)
        requires
            self.wf(),
        ensures
            r is None <==> self@ == Set::<u16>::empty(),
            r matches Some(x) ==> model::is_max(self@, x),
    {
        broadcast use word::group_word_bits;

        let mut key = self.key;
        let mut value = self.value;
        let mut key_back = self.key_back;
        let mut value_back = self.value_back;
        let found = advance_back_to_next_nonzero_word(
            &mut key,
            &mut value,
            self.bits.borrow_words(),
            &mut key_back,
            &mut value_back,
        );
        if !found {
            assert(self@ =~= Set::<u16>::empty());
            return None;
        }
        let word = if key < key_back {
            value_back
        } else {
            value
        };
        proof {
            model::lemma_max_member(self.rest(), key_back as int);
        }
        Some(64 * key_back + (63 - word.leading_zeros() as u16))
    }

    /// Leaves only the members from `index` on.
    pub fn advance_to(&mut self, index: u16)
        requires
            old(self).wf(),
        ensures
            final(self).wf(),
            final(self)@ == old(self)@.filter(|x: u16| index <= x),
    {
        broadcast use word::group_word_bits;

        let new_key = key(index) as u16;
        if new_key < self.key {
            assert(self@ =~= old(self)@.filter(|x: u16| index <= x));
            return;
        }
        if new_key > self.key_back {
            self.key = self.key_back;
            self.value = 0;
            self.value_back = 0;
            assert(self@ =~= old(self)@.filter(|x: u16| index <= x));
            return;
        }
        let value = if new_key == self.key {
            self.value
        } else if new_key == self.key_back {
            self.value_back
        } else {
            self.bits.borrow_words()[new_key as usize]
        };
        self.key = new_key;
        self.value = value & mask_from(bit(index));
        assert(self@ =~= old(self)@.filter(|x: u16| index <= x));
    }

    /// Leaves only the members up to `index`.
    pub fn advance_back_to(&mut self, index: u16)
        requires
            old(self).wf(),
        ensures
            final(self).wf(),
            final(self)@ == old(self)@.filter(|x: u16| x <= index),
    {
        broadcast use word::group_word_bits;

        let new_key = key(index) as u16;
        if new_key > self.key_back {
            assert(self@ =~= old(self)@.filter(|x: u16| x <= index));
            return;
        }
        if new_key < self.key {
            self.key_back = self.key;
            self.value = 0;
            self.value_back = 0;
            assert(self@ =~= old(self)@.filter(|x: u16| x <= index));
            return;
        }
        let value = if new_key == self.key {
            self.value
        } else if new_key == self.key_back {
            self.value_back
        } else {
            self.bits.borrow_words()[new_key as usize]
        };
        self.key_back = new_key;
        self.set_back_word(value & mask_to(bit(index)));
        assert(self@ =~= old(self)@.filter(|x: u16| x <= index));
    }

    /// The first run of consecutive members that are left, which are then no longer left.
    pub fn next_range(&mut self) -> (r: Option<RangeInclusive<u16>>)
        requires
            old(self).wf(),
        ensures
            final(self).wf(),
            r is None <==> old(self)@ == Set::<u16>::empty(),
            r is None ==> final(self)@ == Set::<u16>::empty(),
            r matches Some(range) ==> {
                &&& !range@.exhausted
                &&& is_first_run(old(self)@, range@.start, range@.end)
                &&& final(self)@ == old(self)@.difference(
                    model::range_set(range@.start, range@.end),
                )
            },
    {
        broadcast use word::group_word_bits;

        let found = advance_to_next_nonzero_word(
            &mut self.key,
            &mut self.value,
            self.bits.borrow_words(),
            &mut self.key_back,
            &mut self.value_back,
        );
        if !found {
            assert(self@ =~= Set::<u16>::empty());
            return None;
        }
        let ghost s = self@;
        let value = self.value;
        let offset = value.trailing_zeros() as u16;
        proof {
            model::lemma_min_member(self.rest(), self.key as int);
            word::lemma_lowest_bit(value);
        }
        let start: u16 = self.key * 64 + offset;
        let shift: usize = offset as usize;
        let run = value >> shift;
        let num_set = run.trailing_ones() as u16;
        proof {
            word::lemma_low_run(run);
            assert(word::has_bit(run, 0));
            assert forall|i: int| offset <= i < offset + num_set implies #[trigger] word::has_bit(
                value,
                i,
            ) by {
                assert(word::has_bit(run, i - offset));
            }
            assert(num_set + offset <= 64) by {
                if num_set + offset > 64 {
                    assert(word::has_bit(value, 64));
                }
            }
            assert(!word::has_bit(run, num_set as int));
        }
        let mut end_inclusive: u16 = start + (num_set - 1);
        if num_set + offset != 64 {
            self.value = self.value & mask_from((num_set + offset) as usize);
            proof {
                assert(self@ =~= s.difference(model::range_set(start, end_inclusive)));
                assert(!s.contains((end_inclusive + 1) as u16));
            }
            return Some(RangeInclusive::new(start, end_inclusive));
        }
        self.value = 0;
        assert(self@ =~= s.difference(model::range_set(start, end_inclusive)));
        while self.key < self.key_back
            invariant
                self.wf(),
                model::is_min(s, start),
                start <= end_inclusive,
                end_inclusive == 64 * self.key + 63,
                self.value == 0,
                model::range_set(start, end_inclusive).subset_of(s),
                self@ == s.difference(model::range_set(start, end_inclusive)),
                s == old(self)@,
            decreases self.key_back - self.key,
        {
            broadcast use word::group_word_bits;

            let ghost words = self.rest();
            self.key = self.key + 1;
            if self.key == self.key_back {
                self.value = self.value_back;
                self.value_back = 0;
            } else {
                self.value = self.bits.borrow_words()[self.key as usize];
            }
            assert(self.rest() =~= words);
            let set_bits = self.value.trailing_ones() as u16;
            proof {
                word::lemma_low_run(self.value);
            }
            let ghost low = end_inclusive;
            end_inclusive = end_inclusive + set_bits;
            assert forall|x: u16| low < x <= end_inclusive implies s.contains(x) by {
                assert(word::has_bit(words[x as int / 64], x as int % 64));
                assert(model::word_set(words).contains(x));
            }
            if set_bits != 64 {
                self.value = self.value & mask_from(set_bits as usize);
                proof {
                    assert(self@ =~= model::word_set(words).filter(
                        |x: u16| !(low < x <= end_inclusive),
                    ));
                    assert(self@ =~= s.difference(model::range_set(start, end_inclusive)));
                    let x = (end_inclusive + 1) as u16;
                    assert(x as int / 64 == self.key && x as int % 64 == set_bits);
                    assert(!model::word_set(words).contains(x));
                }
                return Some(RangeInclusive::new(start, end_inclusive));
            }
            self.value = 0;
            assert(self@ =~= model::word_set(words).filter(|x: u16| !(low < x <= end_inclusive)));
            assert(self@ =~= s.difference(model::range_set(start, end_inclusive)));
        }
        proof {
            if end_inclusive < u16::MAX {
                let x = (end_inclusive + 1) as u16;
                assert(!self@.contains(x));
            }
        }
        Some(RangeInclusive::new(start, end_inclusive))
    }

    /// The last run of consecutive members that are left, which are then no longer left.
    pub fn next_range_back(&mut self) -> (r: Option<RangeInclusive<u16>>)
        requires
            old(self).wf(),
        ensures
            final(self).wf(),
            r is None <==> old(self)@ == Set::<u16>::empty(),
            r is None ==> final(self)@ == Set::<u16>::empty(),
            r matches Some(range) ==> {
                &&& !range@.exhausted
                &&& is_last_run(old(self)@, range@.start, range@.end)
                &&& final(self)@ == old(self)@.difference(
                    model::range_set(range@.start, range@.end),
                )
            },
    {
        broadcast use word::group_word_bits;

        let found = advance_back_to_next_nonzero_word(
            &mut self.key,
            &mut self.value,
            self.bits.borrow_words(),
            &mut self.key_back,
            &mut self.value_back,
        );
        if !found {
            assert(self@ =~= Set::<u16>::empty());
            return None;
        }
        let ghost s = self@;
        let value = self.back_word();
        proof {
            model::lemma_max_member(self.rest(), self.key_back as int);
            word::lemma_highest_bit(value);
        }
        let end_offset = value.leading_zeros() as u16;
        let end_inclusive: u16 = self.key_back * 64 + (63 - end_offset);
        let shift: usize = end_offset as usize;
        let run = value << shift;
        let num_set = run.leading_ones() as u16;
        proof {
            word::lemma_high_run(run);
            assert(word::has_bit(run, 63));
            assert forall|i: int|
                64 - end_offset - num_set <= i < 64 - end_offset implies #[trigger] word::has_bit(
                value,
                i,
            ) by {
                assert(word::has_bit(run, i + end_offset));
            }
            assert(num_set + end_offset <= 64) by {
                if num_set + end_offset > 64 {
                    assert(word::has_bit(value, -1));
                }
            }
            assert(!word::has_bit(run, 63 - num_set));
        }
        let mut start: u16 = end_inclusive - (num_set - 1);
        if num_set + end_offset != 64 {
            self.set_back_word(value & mask_to((63 - num_set - end_offset) as usize));
            proof {
                assert(self@ =~= s.difference(model::range_set(start, end_inclusive)));
                assert(!s.contains((start - 1) as u16));
            }
            return Some(RangeInclusive::new(start, end_inclusive));
        }
        self.set_back_word(0);
        assert(self@ =~= s.difference(model::range_set(start, end_inclusive)));
        while self.key < self.key_back
            invariant
                self.wf(),
                model::is_max(s, end_inclusive),
                start <= end_inclusive,
                start == 64 * self.key_back,
                self.rest()[self.key_back as int] == 0,
                model::range_set(start, end_inclusive).subset_of(s),
                self@ == s.difference(model::range_set(start, end_inclusive)),
                s == old(self)@,
            decreases self.key_back - self.key,
        {
            broadcast use word::group_word_bits;

            let ghost words = self.rest();
            self.key_back = self.key_back - 1;
            if self.key < self.key_back {
                self.value_back = self.bits.borrow_words()[self.key_back as usize];
            }
            assert(self.rest() =~= words);
            let value = self.back_word();
            let set_bits = value.leading_ones() as u16;
            proof {
                word::lemma_high_run(value);
            }
            let ghost high = start;
            start = start - set_bits;
            assert forall|x: u16| start <= x < high implies s.contains(x) by {
                assert(word::has_bit(words[x as int / 64], x as int % 64));
                assert(model::word_set(words).contains(x));
            }
            if set_bits != 64 {
                self.set_back_word(value & mask_to((63 - set_bits) as usize));
                proof {
                    assert(self@ =~= model::word_set(words).filter(
                        |x: u16| !(start <= x < high),
                    ));
                    assert(self@ =~= s.difference(model::range_set(start, end_inclusive)));
                    let x = (start - 1) as u16;
                    assert(x as int / 64 == self.key_back && x as int % 64 == 63 - set_bits);
                    assert(!model::word_set(words).contains(x));
                }
                return Some(RangeInclusive::new(start, end_inclusive));
            }
            self.set_back_word(0);
            assert(self@ =~= model::word_set(words).filter(|x: u16| !(start <= x < high)));
            assert(self@ =~= s.difference(model::range_set(start, end_inclusive)));
        }
        proof {
            if start > 0 {
                let x = (start - 1) as u16;
                assert(!self@.contains(x));
            }
        }
        Some(RangeInclusive::new(start, end_inclusive))
    }

    /// The number of members that are left.
    pub fn len(&self) -> (r: usize)
        requires
            self.wf(),
        ensures
            r == self@.len(),
    {
        let words = self.bits.borrow_words();
        let ghost rest = self.rest();
        let mut len: u32 = self.value.count_ones();
        proof {
            model::lemma_count_ends(self@);
            model::lemma_word_len(rest, self.key as int);
            model::lemma_len_bound(self@);
        }
        if self.key < self.key_back {
            for k in self.key as usize + 1..self.key_back as usize
                invariant
                    self.wf(),
                    self.key < self.key_back,
                    rest == self.rest(),
                    words@ == self.bits.words(),
                    len == model::between(self@, 64 * self.key, 64 * k).len(),
            {
                proof {
                    model::lemma_word_len(rest, k as int);
                    model::lemma_between_split(self@, 64 * self.key, 64 * k, 64 * k + 64);
                    model::lemma_len_bound(model::between(self@, 64 * self.key, 64 * (k + 1)));
                }
                len = len + words[k].count_ones();
            }
            proof {
                let k = self.key_back as int;
                model::lemma_word_len(rest, k);
                model::lemma_between_split(self@, 64 * self.key, 64 * k, 64 * k + 64);
                model::lemma_len_bound(model::between(self@, 64 * self.key, 64 * (k + 1)));
            }
            len = len + self.value_back.count_ones();
        }
        proof {
            broadcast use word::group_word_bits;

            assert(model::between(self@, 64 * self.key, 64 * (self.key_back + 1)) =~= self@);
        }
        len as usize
    }

    /// Bounds on the number of members that are left: that number itself, twice.
    pub fn size_hint(&self) -> (r: (usize, Option<usize>))
        requires
            self.wf(),
        ensures
            r.0 == self@.len(),
            r.1 == Some(r.0),
    {
        let len = self.len();
        (len, Some(len))
    }

    /// The number of members that were left.
    pub fn count(self) -> (r: usize)
        requires
            self.wf(),
        ensures
            r == self@.len(),
    {
        self.len()
    }
}

impl<B: WordSource> Clone for BitmapIter<B> {
    /// A cursor with the same members left.
    fn clone(&self) -> (r: Self)
        ensures
            r@ == self@,
            self.wf() ==> r.wf(),
    {
        BitmapIter {
            key: self.key,
            value: self.value,
            key_back: self.key_back,
            value_back: self.value_back,
            bits: self.bits.duplicate(),
        }
    }
}

} // verus!
