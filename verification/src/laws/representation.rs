//! Laws of how stores represent their members: words, cached numbers and bytes.
use vstd::arithmetic::power2::*;
use vstd::prelude::*;
use vstd::std_specs::cmp::PartialEqSpec;

use crate::laws::words;
use crate::model;
use crate::model::{BITMAP_BYTES, BITMAP_LENGTH};
use crate::store::BitmapStore;
use crate::word;

verus! {

/// Stores with the same members have the same words.
pub proof fn law_same_members_same_words(a: BitmapStore, b: BitmapStore)
    requires
        a@ == b@,
    ensures
        a.words() == b.words(),
{
    BitmapStore::lemma_words_len(a);
    BitmapStore::lemma_words_len(b);
    model::lemma_words_ext(a.words(), b.words());
}

/// Comparing well-formed stores compares their members, unless both are empty: the cached word
/// indices of empty stores may differ.
pub proof fn law_eq_compares_members(a: BitmapStore, b: BitmapStore)
    requires
        a.wf(),
        b.wf(),
        a@.len() > 0 || b@.len() > 0,
    ensures
        a.eq_spec(&b) <==> a@ == b@,
{
    if a@ == b@ {
        law_same_members_same_words(a, b);
        law_word_bounds_unique(
            a.words(),
            a.cached_first(),
            a.cached_last(),
            b.cached_first(),
            b.cached_last(),
        );
    }
}

/// What `==` returns is decided by what a store is made of, empty or not: it returns `true` exactly
/// when the two stores have the same words, the same number of members and the same cached word
/// indices.
pub proof fn law_eq_result(a: BitmapStore, b: BitmapStore, r: bool)
    requires
        call_ensures(BitmapStore::eq, (&a, &b), r),
    ensures
        r <==> a.words() == b.words() && a.cached_len() == b.cached_len() && a.cached_first()
            == b.cached_first() && a.cached_last() == b.cached_last(),
{
}

/// Stores are equal exactly when they are made of the same parts, empty stores like any others.
pub proof fn law_eq_same_parts(a: BitmapStore, b: BitmapStore)
    ensures
        a.eq_spec(&b) <==> a.words() == b.words() && a.cached_len() == b.cached_len()
            && a.cached_first() == b.cached_first() && a.cached_last() == b.cached_last(),
{
}

/// Every store is equal to itself.
pub proof fn law_eq_reflexive(a: BitmapStore)
    ensures
        a.eq_spec(&a),
{
}

/// Equality does not depend on the order of its operands.
pub proof fn law_eq_symmetric(a: BitmapStore, b: BitmapStore)
    ensures
        a.eq_spec(&b) <==> b.eq_spec(&a),
{
}

/// Stores that are equal to the same store are equal.
pub proof fn law_eq_transitive(a: BitmapStore, b: BitmapStore, c: BitmapStore)
    requires
        a.eq_spec(&b),
        b.eq_spec(&c),
    ensures
        a.eq_spec(&c),
{
}

/// Well-formed stores are equal exactly when they have the same members and, where there are none,
/// the same cached word indices.
pub proof fn law_eq_of_well_formed(a: BitmapStore, b: BitmapStore)
    requires
        a.wf(),
        b.wf(),
    ensures
        a.eq_spec(&b) <==> a@ == b@ && (a@.len() == 0 ==> a.cached_first() == b.cached_first()
            && a.cached_last() == b.cached_last()),
{
    if a@.len() > 0 || b@.len() > 0 {
        law_eq_compares_members(a, b);
    } else if a@ == b@ {
        law_same_members_same_words(a, b);
    }
}

/// A clone is equal to the store it was made from, in either order, has the same members and is
/// well-formed when that store is.
pub proof fn law_clone_is_equal(a: BitmapStore, b: BitmapStore)
    requires
        call_ensures(BitmapStore::clone, (&a,), b),
    ensures
        a.eq_spec(&b),
        b.eq_spec(&a),
        b@ == a@,
        a.wf() ==> b.wf(),
{
}

/// `==` of a store and its clone returns `true`.
pub proof fn law_eq_of_clone(a: BitmapStore, b: BitmapStore, r: bool)
    requires
        call_ensures(BitmapStore::clone, (&a,), b),
        call_ensures(BitmapStore::eq, (&a, &b), r),
    ensures
        r,
{
    law_clone_is_equal(a, b);
    law_eq_result(a, b, r);
}

/// New stores are equal to each other and to default ones.
pub proof fn law_new_stores_are_equal(a: BitmapStore, b: BitmapStore, c: BitmapStore)
    requires
        call_ensures(BitmapStore::new, (), a),
        call_ensures(BitmapStore::new, (), b),
        call_ensures(BitmapStore::default, (), c),
    ensures
        a.eq_spec(&b),
        a.eq_spec(&c),
{
    law_eq_of_well_formed(a, b);
    law_eq_of_well_formed(a, c);
}

/// What is said of the cached word indices together is said of each of them.
pub proof fn law_cached_words_both(a: BitmapStore, b: BitmapStore)
    ensures
        a.cached_words() == b.cached_words() <==> a.cached_first() == b.cached_first()
            && a.cached_last() == b.cached_last(),
{
}

/// The first and the last word that is not zero are determined by the words.
pub proof fn law_word_bounds_unique(words: Seq<u64>, f1: int, l1: int, f2: int, l2: int)
    requires
        model::word_bounds(words, f1, l1),
        model::word_bounds(words, f2, l2),
    ensures
        f1 == f2,
        l1 == l2,
{
    if f1 < f2 {
        assert(words[f1] == 0);
    }
    if f2 < f1 {
        assert(words[f2] == 0);
    }
    if l1 < l2 {
        assert(words[l2] == 0);
    }
    if l2 < l1 {
        assert(words[l1] == 0);
    }
}

/// The cached word indices of a store with members are those of its least and greatest member.
pub proof fn law_cached_words_hold_min_and_max(a: BitmapStore, least: u16, greatest: u16)
    requires
        a.wf(),
        model::is_min(a@, least),
        model::is_max(a@, greatest),
    ensures
        a.cached_first() == least as int / 64,
        a.cached_last() == greatest as int / 64,
{
    broadcast use {word::group_word_bits, model::lemma_finite};

    let words = a.words();
    assert(a@.contains(least));
    assert(a@.contains(greatest));
    assert(words[least as int / 64] != 0);
    assert(words[greatest as int / 64] != 0);
    model::lemma_word_zero(words, a.cached_first());
    model::lemma_word_zero(words, a.cached_last());
    let x = choose|x: u16| x as int / 64 == a.cached_first() && #[trigger] a@.contains(x);
    let y = choose|y: u16| y as int / 64 == a.cached_last() && #[trigger] a@.contains(y);
    assert(least <= x);
    assert(y <= greatest);
}

/// The words of a store and the number of its members are accepted as a store again, one with the
/// same members.
pub proof fn law_words_rebuild(a: BitmapStore, len: u64, words: Seq<u64>)
    requires
        a.wf(),
        len == a@.len(),
        words == a.words(),
    ensures
        words.len() == BITMAP_LENGTH,
        len == model::word_set(words).len(),
        model::word_set(words) == a@,
{
    BitmapStore::lemma_words_len(a);
}

/// The bytes of the words of a store, read back, stand for the members of the store.
pub proof fn law_bytes_of_words(words: Seq<u64>)
    requires
        words.len() == BITMAP_LENGTH,
    ensures
        model::words_to_bytes(words).len() == BITMAP_BYTES,
        model::byte_set(model::words_to_bytes(words), 0) == model::word_set(words),
{
    let bytes = model::words_to_bytes(words);
    assert forall|x: u16| model::byte_set(bytes, 0).contains(x) == model::word_set(words).contains(
        x,
    ) by {
        let b = x as int / 8;
        word::lemma_byte_of(words[x as int / 64], b % 8, x as int % 8);
        assert(b / 8 == x as int / 64);
        assert(8 * (b % 8) + x as int % 8 == x as int % 64);
    }
    assert(model::byte_set(bytes, 0) =~= model::word_set(words));
}

/// A value is a member exactly when bit `x % 64` of word `x / 64` is one, counted by division.
pub proof fn law_member_by_division(words: Seq<u64>, x: u16)
    ensures
        model::word_set(words).contains(x) <==> (words[x as int / 64] as nat / pow2(
            (x as int % 64) as nat,
        )) % 2 == 1,
{
    words::law_bit_by_division(words[x as int / 64], x as int % 64);
}

/// A value is a member of what bytes stand for exactly when its byte is one of them and bit `x % 8`
/// of that byte is one, counted by division.
pub proof fn law_byte_member_by_division(bytes: Seq<u8>, offset: int, x: u16)
    ensures
        model::byte_set(bytes, offset).contains(x) <==> offset <= x as int / 8 < offset
            + bytes.len() && (bytes[x as int / 8 - offset] as nat / pow2((x as int % 8) as nat)) % 2 == 1,
{
    words::law_bit_by_division(bytes[x as int / 8 - offset] as u64, x as int % 8);
}

/// Bytes that follow each other stand for the members of both parts.
pub proof fn law_bytes_concatenate(a: Seq<u8>, b: Seq<u8>, offset: int)
    requires
        0 <= offset,
    ensures
        model::byte_set(a + b, offset) == model::byte_set(a, offset).union(
            model::byte_set(b, offset + a.len()),
        ),
{
    assert(model::byte_set(a + b, offset) =~= model::byte_set(a, offset).union(
        model::byte_set(b, offset + a.len()),
    ));
}

} // verus!
