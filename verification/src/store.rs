//! The bitmap container.
mod convert;
mod ops;
mod order;
mod range;

use vstd::prelude::*;
use vstd::std_specs::bits::*;

use crate::array_store::ARRAY_LIMIT;
use crate::error::{Error, ErrorKind};
use crate::model;
use crate::model::BITMAP_LENGTH;
use crate::word;
use crate::word::{bit, key};

verus! {

/// A set of `u16` values, one bit for each value.
pub struct BitmapStore {
    len: u64,
    bits: Box<[u64; BITMAP_LENGTH]>,
    /// The index of the first word that is not zero; any number when the store is empty.
    first_nonzero_word: u16,
    /// The index of the last word that is not zero; any number when the store is empty.
    last_nonzero_word: u16,
}

impl View for BitmapStore {
    type V = Set<u16>;

    open spec fn view(&self) -> Set<u16> {
        model::word_set(self.words())
    }
}

impl BitmapStore {
    /// The words of the bitmap.
    pub closed spec fn words(&self) -> Seq<u64> {
        self.bits@
    }

    /// The cached number of members.
    pub closed spec fn cached_len(&self) -> nat {
        self.len as nat
    }

    /// The cached index of the first word that is not zero.
    pub closed spec fn cached_first(&self) -> int {
        self.first_nonzero_word as int
    }

    /// The cached index of the last word that is not zero.
    pub closed spec fn cached_last(&self) -> int {
        self.last_nonzero_word as int
    }

    /// The cached word indices. An operation that leaves no members leaves them as they are.
    pub open spec fn cached_words(&self) -> (int, int) {
        (self.cached_first(), self.cached_last())
    }

    /// The cached numbers agree with the words. The cached indices of an empty store may be any.
    pub open spec fn wf(&self) -> bool {
        &&& self.cached_len() == self@.len()
        &&& self.cached_len() > 0 ==> model::word_bounds(
            self.words(),
            self.cached_first(),
            self.cached_last(),
        )
    }

    /// There is always the same number of words.
    pub proof fn lemma_words_len(store: BitmapStore)
        ensures
            store.words().len() == BITMAP_LENGTH,
    {
    }

    /// The empty store.
    pub fn new() -> (r: BitmapStore)
        ensures
            r.wf(),
            r@ == Set::<u16>::empty(),
            r.cached_words() == (0int, 0int),
    {
        broadcast use word::group_word_bits;

        let r = BitmapStore {
            len: 0,
            bits: Box::new([0; BITMAP_LENGTH]),
            first_nonzero_word: 0,
            last_nonzero_word: 0,
        };
        assert(r@ =~= Set::<u16>::empty());
        r
    }

    /// How many values a store can hold.
    pub fn capacity(&self) -> (r: usize)
        ensures
            r == 65536,
    {
        BITMAP_LENGTH * u64::BITS as usize
    }

    /// The number of bits that are set in all words together.
    fn count_bits(bits: &[u64; BITMAP_LENGTH]) -> (r: u64)
        ensures
            r == model::word_set(bits@).len(),
    {
        let mut total: u64 = 0;
        proof {
            model::lemma_count_ends(model::word_set(bits@));
        }
        for k in 0..BITMAP_LENGTH
            invariant
                total == model::between(model::word_set(bits@), 0, 64 * k).len(),
        {
            proof {
                model::lemma_count_step(bits@, k as int);
                model::lemma_len_bound(model::between(model::word_set(bits@), 0, 64 * (k + 1)));
            }
            total = total + bits[k].count_ones() as u64;
        }
        total
    }

    /// A store from its words and the number of bits that are set in them, or an error when that
    /// number is wrong.
    pub fn try_from(len: u64, bits: Box<[u64; BITMAP_LENGTH]>) -> (r: Result<BitmapStore, Error>)
        ensures
            r is Ok <==> len == model::word_set(bits@).len(),
            r matches Ok(store) ==> {
                &&& store.wf()
                &&& store.words() == bits@
                &&& len == 0 ==> store.cached_words() == (0int, 0int)
            },
            r matches Err(e) ==> (e.kind matches ErrorKind::Cardinality { expected, actual }
                && expected == len && actual == model::word_set(bits@).len()),
    {
        let actual_len = Self::count_bits(&bits);
        if len != actual_len {
            Err(Error { kind: ErrorKind::Cardinality { expected: len, actual: actual_len } })
        } else {
            let (first, last) = Self::compute_word_bounds(&bits);
            proof {
                if len > 0 {
                    let k = model::lemma_nonzero_word(bits@);
                } else {
                    model::lemma_zero_words(bits@);
                }
            }
            Ok(BitmapStore { len, bits, first_nonzero_word: first, last_nonzero_word: last })
        }
    }

    /// The indices of the first and the last word that is not zero, or `(0, 0)` when all are zero.
    fn compute_word_bounds(bits: &[u64; BITMAP_LENGTH]) -> (r: (u16, u16))
        ensures
            (exists|k: int| 0 <= k < BITMAP_LENGTH && #[trigger] bits@[k] != 0)
                ==> model::word_bounds(bits@, r.0 as int, r.1 as int),
            (forall|k: int| 0 <= k < BITMAP_LENGTH ==> #[trigger] bits@[k] == 0)
                ==> r == (0u16, 0u16),
    {
        let mut first: u16 = 0;
        let mut last: u16 = 0;
        let mut found_first = false;
        for i in 0..BITMAP_LENGTH
            invariant
                !found_first ==> first == 0 && last == 0,
                !found_first ==> forall|k: int| 0 <= k < i ==> #[trigger] bits@[k] == 0,
                found_first ==> {
                    &&& first <= last < i
                    &&& bits@[first as int] != 0
                    &&& bits@[last as int] != 0
                    &&& forall|k: int| 0 <= k < first ==> #[trigger] bits@[k] == 0
                    &&& forall|k: int| last < k < i ==> #[trigger] bits@[k] == 0
                },
        {
            if bits[i] != 0 {
                if !found_first {
                    first = i as u16;
                    found_first = true;
                }
                last = i as u16;
            }
        }
        (first, last)
    }

    /// A store from its words and the number of bits that are set in them.
    pub fn from_unchecked(len: u64, bits: Box<[u64; BITMAP_LENGTH]>) -> (r: BitmapStore)
        requires
            len == model::word_set(bits@).len(),
        ensures
            r.wf(),
            r.words() == bits@,
            len == 0 ==> r.cached_words() == (0int, 0int),
    {
        let (first, last) = Self::compute_word_bounds(&bits);
        proof {
            if len > 0 {
                let k = model::lemma_nonzero_word(bits@);
            } else {
                model::lemma_zero_words(bits@);
            }
        }
        BitmapStore { len, bits, first_nonzero_word: first, last_nonzero_word: last }
    }

    /// Adds `index`; returns whether it was missing.
    #[inline]
    pub fn insert(&mut self, index: u16) -> (r: bool)
        requires
            old(self).wf(),
        ensures
            final(self).wf(),
            final(self)@ == old(self)@.insert(index),
            r == !old(self)@.contains(index),
    {
        broadcast use {word::group_word_bits, model::lemma_finite};

        let (key, bit) = (key(index), bit(index));
        let old_w = self.bits[key];
        let new_w = old_w | (1u64 << bit);
        let inserted = (old_w ^ new_w) >> bit;
        self.bits[key] = new_w;
        proof {
            word::lemma_set_change(old_w, bit);
            assert(self@ =~= old(self)@.insert(index));
            model::lemma_len_bound(self@);
            if old(self).len == 0 {
                model::lemma_zero_words(old(self).bits@);
            }
            assert(new_w != 0) by {
                assert(word::has_bit(new_w, bit as int));
            }
        }
        if inserted != 0 {
            self.len = self.len + 1;
            let key16 = key as u16;
            if self.len == 1 {
                self.first_nonzero_word = key16;
                self.last_nonzero_word = key16;
            } else {
                if key16 < self.first_nonzero_word {
                    self.first_nonzero_word = key16;
                }
                if key16 > self.last_nonzero_word {
                    self.last_nonzero_word = key16;
                }
            }
        }
        inserted != 0
    }

    /// Whether `index` is a member.
    pub fn contains(&self, index: u16) -> (r: bool)
        ensures
            r == self@.contains(index),
    {
        proof {
            word::lemma_extract(self.bits@[index as int / 64], (index as int % 64) as usize);
        }
        self.bits[key(index)] & (1u64 << bit(index)) != 0
    }

    /// The index of the first word from `from` on that is not zero.
    fn first_nonzero_from(bits: &[u64; BITMAP_LENGTH], from: usize) -> (r: usize)
        requires
            exists|k: int| from <= k < BITMAP_LENGTH && #[trigger] bits@[k] != 0,
        ensures
            from <= r < BITMAP_LENGTH,
            bits@[r as int] != 0,
            forall|k: int| from <= k < r ==> #[trigger] bits@[k] == 0,
    {
        let mut i = from;
        while bits[i] == 0
            invariant
                exists|k: int| i <= k < BITMAP_LENGTH && #[trigger] bits@[k] != 0,
                from <= i < BITMAP_LENGTH,
                forall|k: int| from <= k < i ==> #[trigger] bits@[k] == 0,
            decreases BITMAP_LENGTH - i,
        {
            i = i + 1;
        }
        i
    }

    /// The index of the last word before `to` that is not zero.
    fn last_nonzero_before(bits: &[u64; BITMAP_LENGTH], to: usize) -> (r: usize)
        requires
            to <= BITMAP_LENGTH,
            exists|k: int| 0 <= k < to && #[trigger] bits@[k] != 0,
        ensures
            r < to,
            bits@[r as int] != 0,
            forall|k: int| r < k < to ==> #[trigger] bits@[k] == 0,
    {
        let mut i = to - 1;
        while bits[i] == 0
            invariant
                exists|k: int| 0 <= k <= i && #[trigger] bits@[k] != 0,
                i < to <= BITMAP_LENGTH,
                forall|k: int| i < k < to ==> #[trigger] bits@[k] == 0,
            decreases i,
        {
            i = i - 1;
        }
        i
    }

    /// Removes `index`; returns whether it was a member.
    pub fn remove(&mut self, index: u16) -> (r: bool)
        requires
            old(self).wf(),
        ensures
            final(self).wf(),
            final(self)@ == old(self)@.remove(index),
            final(self)@.len() == 0 ==> final(self).cached_words() == old(self).cached_words(),
            r == old(self)@.contains(index),
    {
        broadcast use {word::group_word_bits, model::lemma_finite};

        let (key, bit) = (key(index), bit(index));
        let old_w = self.bits[key];
        let new_w = old_w & !(1u64 << bit);
        let removed = (old_w ^ new_w) >> bit;
        self.bits[key] = new_w;
        proof {
            word::lemma_clear_change(old_w, bit);
            assert(self@ =~= old(self)@.remove(index));
            if old(self)@.contains(index) && self@.len() > 0 {
                let k = model::lemma_nonzero_word(self.bits@);
            }
            if removed == 0 {
                word::lemma_word_ext(old_w, new_w);
                assert(self.bits@ =~= old(self).bits@);
            }
        }
        if removed != 0 {
            self.len = self.len - 1;
            if new_w == 0 && self.len > 0 {
                let key16 = key as u16;
                if key16 == self.first_nonzero_word {
                    self.first_nonzero_word = Self::first_nonzero_from(&self.bits, key + 1) as u16;
                }
                if key16 == self.last_nonzero_word {
                    self.last_nonzero_word = Self::last_nonzero_before(&self.bits, key) as u16;
                }
            }
        }
        removed != 0
    }

    /// Moves the cached word indices inward to words that are not zero.
    fn recompute_bounds_if_needed(&mut self)
        requires
            old(self).len == old(self)@.len(),
            old(self).len > 0,
            old(self).first_nonzero_word < BITMAP_LENGTH,
            old(self).last_nonzero_word < BITMAP_LENGTH,
            forall|k: int|
                0 <= k < old(self).first_nonzero_word ==> #[trigger] old(self).bits@[k] == 0,
            forall|k: int|
                old(self).last_nonzero_word < k < BITMAP_LENGTH
                    ==> #[trigger] old(self).bits@[k] == 0,
        ensures
            final(self).wf(),
            final(self).len == old(self).len,
            final(self).bits == old(self).bits,
    {
        proof {
            let k = model::lemma_nonzero_word(self.bits@);
        }
        let first = self.first_nonzero_word as usize;
        if self.bits[first] == 0 {
            self.first_nonzero_word = Self::first_nonzero_from(&self.bits, first + 1) as u16;
        }
        let last = self.last_nonzero_word as usize;
        if self.bits[last] == 0 {
            self.last_nonzero_word = Self::last_nonzero_before(&self.bits, last) as u16;
        }
    }

    /// Adds `index` when it is greater than every member; returns whether it was.
    pub fn push(&mut self, index: u16) -> (r: bool)
        requires
            old(self).wf(),
        ensures
            final(self).wf(),
            r == (forall|x: u16| #[trigger] old(self)@.contains(x) ==> x < index),
            final(self)@ == (if r {
                old(self)@.insert(index)
            } else {
                old(self)@
            }),
    {
        let above = match self.max() {
            None => true,
            Some(max) => max < index,
        };
        if above {
            self.insert(index);
            true
        } else {
            false
        }
    }

    /// Adds `index`, which is greater than every member.
    pub fn push_unchecked(&mut self, index: u16)
        requires
            old(self).wf(),
            forall|x: u16| #[trigger] old(self)@.contains(x) ==> x < index,
        ensures
            final(self).wf(),
            final(self)@ == old(self)@.insert(index),
    {
        self.insert(index);
    }

    /// The number of members.
    pub fn len(&self) -> (r: u64)
        requires
            self.wf(),
        ensures
            r == self@.len(),
    {
        self.len
    }

    /// Whether there are no members.
    pub fn is_empty(&self) -> (r: bool)
        requires
            self.wf(),
        ensures
            r == (self@ == Set::<u16>::empty()),
    {
        broadcast use model::lemma_finite;

        proof {
            if self.len == 0 {
                self@.lemma_len0_is_empty();
            }
        }
        self.len == 0
    }

    /// The least member, or `None` when there is none.
    #[inline]
    pub fn min(&self) -> (r: Option<u16>)
        requires
            self.wf(),
        ensures
            r is None <==> self@ == Set::<u16>::empty(),
            r matches Some(x) ==> model::is_min(self@, x),
    {
        broadcast use {word::group_word_bits, model::lemma_finite};

        if self.len == 0 {
            proof {
                self@.lemma_len0_is_empty();
            }
            return None;
        }
        let word_idx = self.first_nonzero_word as usize;
        let word = self.bits[word_idx];
        proof {
            model::lemma_min_member(self.bits@, word_idx as int);
        }
        Some((word_idx * 64 + word.trailing_zeros() as usize) as u16)
    }

    /// The greatest member, or `None` when there is none.
    #[inline]
    pub fn max(&self) -> (r: Option<u16>)
        requires
            self.wf(),
        ensures
            r is None <==> self@ == Set::<u16>::empty(),
            r matches Some(x) ==> model::is_max(self@, x),
    {
        broadcast use {word::group_word_bits, model::lemma_finite};

        if self.len == 0 {
            proof {
                self@.lemma_len0_is_empty();
            }
            return None;
        }
        let word_idx = self.last_nonzero_word as usize;
        let word = self.bits[word_idx];
        proof {
            model::lemma_max_member(self.bits@, word_idx as int);
        }
        Some((word_idx * 64 + (63 - word.leading_zeros() as usize)) as u16)
    }

    /// The words of the bitmap.
    pub fn as_array(&self) -> (r: &[u64; BITMAP_LENGTH])
        ensures
            r@ == self.words(),
    {
        &self.bits
    }

    /// The cached index of the first word that is not zero, or any number for an empty store.
    pub fn first_nonzero_word(&self) -> (r: u16)
        ensures
            r == self.cached_first(),
    {
        self.first_nonzero_word
    }

    /// The cached index of the last word that is not zero, or any number for an empty store.
    pub fn last_nonzero_word(&self) -> (r: u16)
        ensures
            r == self.cached_last(),
    {
        self.last_nonzero_word
    }

    /// Removes all members.
    pub fn clear(&mut self)
        ensures
            final(self).wf(),
            final(self)@ == Set::<u16>::empty(),
            final(self).cached_words() == old(self).cached_words(),
    {
        broadcast use word::group_word_bits;

        for k in 0..BITMAP_LENGTH
            invariant
                self.cached_words() == old(self).cached_words(),
                forall|j: int| 0 <= j < k ==> #[trigger] self.bits@[j] == 0,
        {
            self.bits[k] = 0;
        }
        self.len = 0;
        assert(self@ =~= Set::<u16>::empty());
    }

    /// Checks the cached numbers against the words, and that there are too many members for an
    /// array store; says what is wrong, if anything.
    pub fn internal_validate(&self) -> (r: Result<(), &'static str>)
        requires
            self.cached_len() == self@.len() && self.cached_len() > ARRAY_LIMIT
                ==> self.cached_first() < BITMAP_LENGTH && self.cached_last() < BITMAP_LENGTH,
        ensures
            r is Ok <==> self.wf() && self@.len() > ARRAY_LIMIT,
            r matches Err(e) ==> e@ == (if self.cached_len() != self@.len() {
                "bitmap cardinality is incorrect"@
            } else if self@.len() <= ARRAY_LIMIT {
                "cardinality is too small for a bitmap container"@
            } else if self.words()[self.cached_first()] == 0 {
                "first_nonzero_word points to zero word"@
            } else if self.words()[self.cached_last()] == 0 {
                "last_nonzero_word points to zero word"@
            } else if exists|k: int|
                0 <= k < self.cached_first() && #[trigger] self.words()[k] != 0 {
                "non-zero word found before first_nonzero_word"@
            } else {
                "non-zero word found after last_nonzero_word"@
            }),
    {
        let expected_len = Self::count_bits(&self.bits);
        if self.len != expected_len {
            return Err("bitmap cardinality is incorrect");
        }
        if self.len <= ARRAY_LIMIT {
            return Err("cardinality is too small for a bitmap container");
        }
        let first = self.first_nonzero_word as usize;
        let last = self.last_nonzero_word as usize;
        if self.bits[first] == 0 {
            return Err("first_nonzero_word points to zero word");
        }
        if self.bits[last] == 0 {
            return Err("last_nonzero_word points to zero word");
        }
        for i in 0..first
            invariant
                self.len == self@.len(),
                self.len > ARRAY_LIMIT,
                first < BITMAP_LENGTH,
                last < BITMAP_LENGTH,
                first == self.first_nonzero_word,
                last == self.last_nonzero_word,
                self.bits@[first as int] != 0,
                self.bits@[last as int] != 0,
                forall|k: int| 0 <= k < i ==> #[trigger] self.bits@[k] == 0,
        {
            if self.bits[i] != 0 {
                assert(self.words()[i as int] != 0);
                return Err("non-zero word found before first_nonzero_word");
            }
        }
        for i in last + 1..BITMAP_LENGTH
            invariant
                self.len == self@.len(),
                self.len > ARRAY_LIMIT,
                first < BITMAP_LENGTH,
                last < BITMAP_LENGTH,
                first == self.first_nonzero_word,
                last == self.last_nonzero_word,
                self.bits@[first as int] != 0,
                self.bits@[last as int] != 0,
                forall|k: int| 0 <= k < first ==> #[trigger] self.bits@[k] == 0,
                forall|k: int| last < k < i ==> #[trigger] self.bits@[k] == 0,
        {
            if self.bits[i] != 0 {
                assert(self.words()[i as int] != 0);
                return Err("non-zero word found after last_nonzero_word");
            }
        }
        Ok(())
    }
}

impl Default for BitmapStore {
    /// The empty store.
    fn default() -> (r: Self)
        ensures
            r.wf(),
            r@ == Set::<u16>::empty(),
            r.cached_words() == (0int, 0int),
    {
        BitmapStore::new()
    }
}

impl Clone for BitmapStore {
    /// A store with the same words and the same cached numbers.
    fn clone(&self) -> (r: Self)
        ensures
            r.words() == self.words(),
            r.cached_len() == self.cached_len(),
            r.cached_first() == self.cached_first(),
            r.cached_last() == self.cached_last(),
    {
        BitmapStore {
            len: self.len,
            bits: Box::new(*self.bits),
            first_nonzero_word: self.first_nonzero_word,
            last_nonzero_word: self.last_nonzero_word,
        }
    }
}

impl PartialEq for BitmapStore {
    /// Whether the words and the cached numbers are the same.
    fn eq(&self, other: &Self) -> (r: bool)
        ensures
            r <==> self.words() == other.words() && self.cached_len() == other.cached_len()
                && self.cached_first() == other.cached_first() && self.cached_last()
                == other.cached_last(),
    {
        if self.len != other.len || self.first_nonzero_word != other.first_nonzero_word
            || self.last_nonzero_word != other.last_nonzero_word {
            return false;
        }
        for k in 0..BITMAP_LENGTH
            invariant
                self.len == other.len,
                self.first_nonzero_word == other.first_nonzero_word,
                self.last_nonzero_word == other.last_nonzero_word,
                forall|j: int| 0 <= j < k ==> #[trigger] self.bits@[j] == other.bits@[j],
        {
            if self.bits[k] != other.bits[k] {
                return false;
            }
        }
        assert(self.bits@ =~= other.bits@);
        true
    }
}

impl Eq for BitmapStore {

}

impl vstd::std_specs::cmp::PartialEqSpecImpl for BitmapStore {
    open spec fn obeys_eq_spec() -> bool {
        true
    }

    open spec fn eq_spec(&self, other: &Self) -> bool {
        &&& self.words() == other.words()
        &&& self.cached_len() == other.cached_len()
        &&& self.cached_first() == other.cached_first()
        &&& self.cached_last() == other.cached_last()
    }
}

} // verus!
