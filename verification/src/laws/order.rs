//! Laws of order: rank, select, the least and the greatest member, and removal from the ends.
use vstd::prelude::*;
use vstd::set_lib::*;

use crate::model;

verus! {

/// Ranking a member counts the members below it and the member itself.
pub proof fn law_rank_of_member(s: Set<u16>, x: u16)
    requires
        s.contains(x),
    ensures
        model::count_below(s, x + 1) == model::count_below(s, x as int) + 1,
{
    broadcast use model::lemma_finite;

    let below = s.filter(|y: u16| y < x);
    assert(s.filter(|y: u16| y < x + 1) =~= below.insert(x));
}

/// Ranking a value that is not a member counts the members below it.
pub proof fn law_rank_of_missing(s: Set<u16>, x: u16)
    requires
        !s.contains(x),
    ensures
        model::count_below(s, x + 1) == model::count_below(s, x as int),
{
    assert(s.filter(|y: u16| y < x + 1) =~= s.filter(|y: u16| y < x));
}

/// No members lie below zero and all lie below the end; no members lie above the greatest value and
/// all lie above the start.
pub proof fn law_rank_ends(s: Set<u16>)
    ensures
        model::count_below(s, 0) == 0,
        model::count_below(s, 65536) == s.len(),
        model::count_above(s, 65535) == 0,
        model::count_above(s, -1) == s.len(),
{
    assert(s.filter(|y: u16| y < 0) =~= Set::empty());
    assert(s.filter(|y: u16| y < 65536) =~= s);
    assert(s.filter(|y: u16| 65535 < y) =~= Set::empty());
    assert(s.filter(|y: u16| -1 < y) =~= s);
}

/// Two ranks differ by the number of members between the two values.
pub proof fn law_rank_difference(s: Set<u16>, a: u16, b: u16)
    requires
        a < b,
    ensures
        model::count_below(s, b + 1) - model::count_below(s, a + 1) == s.intersect(
            model::range_set((a + 1) as u16, b),
        ).len(),
{
    model::lemma_count_below(s, a + 1);
    model::lemma_count_below(s, b + 1);
    model::lemma_between_split(s, 0, a + 1, b + 1);
    assert(s.intersect(model::range_set((a + 1) as u16, b)) =~= model::between(s, a + 1, b + 1));
}

/// Two members with equally many members below them are the same, so that selecting by rank has one
/// answer, and selecting the rank of a member gives the member back.
pub proof fn law_select_unique(s: Set<u16>, x: u16, y: u16)
    requires
        s.contains(x),
        s.contains(y),
        model::count_below(s, x as int) == model::count_below(s, y as int),
    ensures
        x == y,
{
    if x < y {
        model::lemma_count_below_monotone(s, x as int, y as int);
    } else if y < x {
        model::lemma_count_below_monotone(s, y as int, x as int);
    }
}

/// Selecting goes by the order of the values.
pub proof fn law_select_monotone(s: Set<u16>, x: u16, y: u16)
    requires
        s.contains(x),
        s.contains(y),
    ensures
        model::count_below(s, x as int) < model::count_below(s, y as int) <==> x < y,
{
    if x < y {
        model::lemma_count_below_monotone(s, x as int, y as int);
    } else {
        model::lemma_count_below_monotone(s, y as int, x as int);
    }
}

/// The least member is the one with no members below it.
pub proof fn law_min_is_first(s: Set<u16>, x: u16)
    ensures
        model::is_min(s, x) <==> s.contains(x) && model::count_below(s, x as int) == 0,
{
    broadcast use model::lemma_finite;

    let below = s.filter(|y: u16| y < x);
    if model::is_min(s, x) {
        assert(below =~= Set::empty());
    }
    if s.contains(x) && below.len() == 0 {
        below.lemma_len0_is_empty();
        assert forall|y: u16| #[trigger] s.contains(y) implies x <= y by {
            assert(!below.contains(y));
        }
    }
}

/// The greatest member is the one with all others below it.
pub proof fn law_max_is_last(s: Set<u16>, x: u16)
    ensures
        model::is_max(s, x) <==> s.contains(x) && model::count_below(s, x as int) + 1 == s.len(),
{
    broadcast use model::lemma_finite;

    let up_to = s.filter(|y: u16| y < x + 1);
    if s.contains(x) {
        law_rank_of_member(s, x);
        if model::is_max(s, x) {
            assert(up_to =~= s);
        }
        if up_to.len() == s.len() {
            lemma_subset_equality(up_to, s);
            assert forall|y: u16| #[trigger] s.contains(y) implies y <= x by {
                assert(up_to.contains(y));
            }
        }
    }
}

/// Below, equal and above make up the whole set.
pub proof fn law_below_and_above(s: Set<u16>, x: u16)
    requires
        s.contains(x),
    ensures
        model::count_below(s, x as int) + 1 + model::count_above(s, x as int) == s.len(),
{
    broadcast use model::lemma_finite;

    let up_to = s.filter(|y: u16| y < x + 1);
    let above = s.filter(|y: u16| x < y);
    law_rank_of_member(s, x);
    assert(up_to.disjoint(above));
    assert(s =~= up_to + above);
    lemma_set_disjoint_lens(up_to, above);
}

/// A value that a push accepts is the greatest member afterwards.
pub proof fn law_pushed_is_max(s: Set<u16>, x: u16)
    requires
        forall|y: u16| #[trigger] s.contains(y) ==> y < x,
    ensures
        model::is_max(s.insert(x), x),
        s.insert(x).len() == s.len() + 1,
{
    broadcast use model::lemma_finite;

    assert(!s.contains(x));
}

/// For every number less than the size of a set there is a member with that many members below it.
pub proof fn law_select_exists(s: Set<u16>, n: nat)
    requires
        n < s.len(),
    ensures
        exists|x: u16| #[trigger] s.contains(x) && model::count_below(s, x as int) == n,
{
    model::lemma_count_ends(s);
    model::lemma_count_below(s, 65536);
    lemma_select_exists_below(s, n, 65536);
}

proof fn lemma_select_exists_below(s: Set<u16>, n: nat, t: int)
    requires
        0 <= t <= 65536,
        n < model::count_below(s, t),
    ensures
        exists|x: u16| #[trigger] s.contains(x) && model::count_below(s, x as int) == n,
    decreases t,
{
    if t == 0 {
        assert(s.filter(|y: u16| y < 0) =~= Set::empty());
    } else if n < model::count_below(s, t - 1) {
        lemma_select_exists_below(s, n, t - 1);
    } else {
        let x = (t - 1) as u16;
        if s.contains(x) {
            law_rank_of_member(s, x);
        } else {
            law_rank_of_missing(s, x);
        }
    }
}

/// Removing the least members removes as many as were asked for, or all.
pub proof fn law_without_smallest_len(s: Set<u16>, n: nat)
    ensures
        model::without_smallest(s, n).len() == (if n <= s.len() {
            s.len() - n
        } else {
            0
        }),
{
    if n < s.len() {
        law_select_exists(s, n);
        let t = choose|x: u16| #[trigger] s.contains(x) && model::count_below(s, x as int) == n;
        model::lemma_upper_threshold(s, t as int, n);
    } else {
        lemma_without_smallest_all(s, n);
    }
}

proof fn lemma_without_smallest_all(s: Set<u16>, n: nat)
    requires
        n >= s.len(),
    ensures
        model::without_smallest(s, n) == Set::<u16>::empty(),
{
    assert forall|x: u16| s.contains(x) implies model::count_below(s, x as int) < n by {
        model::lemma_count_below_monotone(s, x as int, 65536);
    }
    assert(model::without_smallest(s, n) =~= Set::<u16>::empty());
}

/// Removing the greatest members removes as many as were asked for, or all.
pub proof fn law_without_biggest_len(s: Set<u16>, n: nat)
    ensures
        model::without_biggest(s, n).len() == (if n <= s.len() {
            s.len() - n
        } else {
            0
        }),
{
    broadcast use model::lemma_finite;

    if n <= s.len() {
        let m = (s.len() - n) as nat;
        law_ends_meet(s, m);
        law_without_smallest_len(s, m);
        let upper = model::without_smallest(s, m);
        let lower = model::without_biggest(s, n);
        lemma_set_disjoint_lens(lower, upper);
    } else {
        assert forall|x: u16| s.contains(x) implies model::count_above(s, x as int) < n by {
            model::lemma_count_above_monotone(s, -1, x as int);
        }
        assert(model::without_biggest(s, n) =~= Set::<u16>::empty());
    }
}

/// Removing members from the ends adds none.
pub proof fn law_removal_keeps_members(s: Set<u16>, n: nat)
    ensures
        model::without_smallest(s, n).subset_of(s),
        model::without_biggest(s, n).subset_of(s),
{
}

/// What is kept when the least members are removed lies above what is removed.
pub proof fn law_smallest_below_rest(s: Set<u16>, n: nat, x: u16, y: u16)
    requires
        s.contains(x),
        !model::without_smallest(s, n).contains(x),
        model::without_smallest(s, n).contains(y),
    ensures
        x < y,
{
    law_select_monotone(s, x, y);
}

/// What is kept when the greatest members are removed lies below what is removed.
pub proof fn law_biggest_above_rest(s: Set<u16>, n: nat, x: u16, y: u16)
    requires
        s.contains(x),
        !model::without_biggest(s, n).contains(x),
        model::without_biggest(s, n).contains(y),
    ensures
        y < x,
{
    law_below_and_above(s, x);
    law_below_and_above(s, y);
    law_select_monotone(s, y, x);
}

/// The least members and the rest: removing the `m` least members keeps exactly what removing all
/// but the `m` least ones from the top removes.
pub proof fn law_ends_meet(s: Set<u16>, m: nat)
    requires
        m <= s.len(),
    ensures
        model::without_biggest(s, (s.len() - m) as nat).disjoint(model::without_smallest(s, m)),
        s == model::without_biggest(s, (s.len() - m) as nat) + model::without_smallest(s, m),
{
    let lower = model::without_biggest(s, (s.len() - m) as nat);
    let upper = model::without_smallest(s, m);
    assert forall|x: u16| s.contains(x) implies lower.contains(x) != upper.contains(x) by {
        law_below_and_above(s, x);
    }
    assert(s =~= lower + upper);
}

/// After the `n` least members are gone, the least one is the member that had `n` members below it.
pub proof fn law_min_after_removal(s: Set<u16>, n: nat, x: u16)
    requires
        s.contains(x),
        model::count_below(s, x as int) == n,
    ensures
        model::is_min(model::without_smallest(s, n), x),
{
    assert forall|y: u16| #[trigger] model::without_smallest(s, n).contains(y) implies x <= y by {
        law_select_monotone(s, y, x);
    }
}

/// Removing the least members in two steps is removing them in one.
pub proof fn law_without_smallest_twice(s: Set<u16>, a: nat, b: nat)
    ensures
        model::without_smallest(model::without_smallest(s, a), b) == model::without_smallest(
            s,
            a + b,
        ),
{
    broadcast use model::lemma_finite;

    let kept = model::without_smallest(s, a);
    let left = model::without_smallest(kept, b);
    let right = model::without_smallest(s, a + b);
    if a < s.len() {
        law_select_exists(s, a);
        let t = choose|x: u16| #[trigger] s.contains(x) && model::count_below(s, x as int) == a;
        model::lemma_upper_threshold(s, t as int, a);
        assert forall|x: u16| left.contains(x) == right.contains(x) by {
            if kept.contains(x) {
                let gone = s.filter(|y: u16| y < t);
                let rest = kept.filter(|y: u16| y < x);
                assert(s.filter(|y: u16| t <= y).contains(x));
                assert forall|y: u16| kept.contains(y) == (s.contains(y) && t <= y) by {
                    assert(s.filter(|y: u16| t <= y).contains(y) == kept.contains(y));
                }
                assert(s.filter(|y: u16| y < x) =~= gone + rest);
                assert(gone.disjoint(rest));
                lemma_set_disjoint_lens(gone, rest);
            }
        }
        assert(left =~= right);
    } else {
        lemma_without_smallest_all(s, a);
        lemma_without_smallest_all(s, a + b);
        assert(left =~= right);
    }
}

/// Removing the greatest members in two steps is removing them in one.
pub proof fn law_without_biggest_twice(s: Set<u16>, a: nat, b: nat)
    ensures
        model::without_biggest(model::without_biggest(s, a), b) == model::without_biggest(s, a + b),
{
    let kept = model::without_biggest(s, a);
    let left = model::without_biggest(kept, b);
    let right = model::without_biggest(s, a + b);
    law_without_biggest_len(s, a);
    assert forall|x: u16| left.contains(x) == right.contains(x) by {
        if kept.contains(x) {
            assert forall|y: u16| s.contains(y) && y < x implies kept.contains(y) by {
                model::lemma_count_above_monotone(s, y as int, x as int);
            }
            assert(kept.filter(|y: u16| y < x) =~= s.filter(|y: u16| y < x));
            law_below_and_above(s, x);
            law_below_and_above(kept, x);
        }
    }
    assert(left =~= right);
}

} // verus!
