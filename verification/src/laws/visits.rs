//! Laws of visiting the members one by one or run by run.
use vstd::prelude::*;

use crate::iter;
use crate::laws::order;
use crate::laws::sets;
use crate::model;

verus! {

/// A set with members has a least one.
pub proof fn law_min_exists(s: Set<u16>)
    requires
        s.len() > 0,
    ensures
        exists|x: u16| model::is_min(s, x),
{
    order::law_select_exists(s, 0);
    let x = choose|x: u16| #[trigger] s.contains(x) && model::count_below(s, x as int) == 0;
    order::law_min_is_first(s, x);
}

/// A set with members has a greatest one.
pub proof fn law_max_exists(s: Set<u16>)
    requires
        s.len() > 0,
    ensures
        exists|x: u16| model::is_max(s, x),
{
    let n = (s.len() - 1) as nat;
    order::law_select_exists(s, n);
    let x = choose|x: u16| #[trigger] s.contains(x) && model::count_below(s, x as int) == n;
    order::law_max_is_last(s, x);
}

/// What a cursor with the members `s` left hands out when it is moved on from the front until none
/// is left: each time the least member, which is then no longer left.
pub open spec fn visited_from_front(s: Set<u16>) -> Seq<u16>
    decreases s.len(),
{
    if s.len() == 0 {
        Seq::empty()
    } else {
        let x = choose|x: u16| model::is_min(s, x);
        proof {
            law_min_exists(s);
            model::lemma_finite(s);
        }
        seq![x] + visited_from_front(s.remove(x))
    }
}

/// What a cursor with the members `s` left hands out when it is moved on from the back until none
/// is left: each time the greatest member, which is then no longer left.
pub open spec fn visited_from_back(s: Set<u16>) -> Seq<u16>
    decreases s.len(),
{
    if s.len() == 0 {
        Seq::empty()
    } else {
        let x = choose|x: u16| model::is_max(s, x);
        proof {
            law_max_exists(s);
            model::lemma_finite(s);
        }
        seq![x] + visited_from_back(s.remove(x))
    }
}

/// From the front, every member is visited once, in ascending order.
pub proof fn law_front_visits_ascending(s: Set<u16>)
    ensures
        model::is_ascending(visited_from_front(s)),
        visited_from_front(s).to_set() == s,
        visited_from_front(s).len() == s.len(),
    decreases s.len(),
{
    broadcast use model::lemma_finite;

    let v = visited_from_front(s);
    if s.len() == 0 {
        s.lemma_len0_is_empty();
        assert(v.to_set() =~= s);
    } else {
        law_min_exists(s);
        let x = choose|x: u16| model::is_min(s, x);
        let rest = visited_from_front(s.remove(x));
        law_front_visits_ascending(s.remove(x));
        assert forall|i: int| 0 <= i < rest.len() implies x < rest[i] by {
            assert(rest.to_set().contains(rest[i]));
        }
        assert forall|y: u16| v.to_set().contains(y) == s.contains(y) by {
            if s.contains(y) {
                if y == x {
                    assert(v[0] == y);
                } else {
                    assert(rest.to_set().contains(y));
                    let j = choose|j: int| 0 <= j < rest.len() && rest[j] == y;
                    assert(v[j + 1] == y);
                }
            }
            if v.contains(y) {
                let j = choose|j: int| 0 <= j < v.len() && v[j] == y;
                if j > 0 {
                    assert(rest[j - 1] == y);
                    assert(rest.to_set().contains(y));
                }
            }
        }
        assert(v.to_set() =~= s);
    }
}

/// From the back, every member is visited once, in the opposite order.
pub proof fn law_back_visits_reversed(s: Set<u16>)
    ensures
        visited_from_back(s) == visited_from_front(s).reverse(),
{
    law_front_visits_ascending(s);
    lemma_back_visits_ascending(s);
    let v = visited_from_front(s);
    let u = visited_from_back(s).reverse();
    law_ascending_unique(u, v);
    assert(visited_from_back(s) =~= u.reverse());
}

proof fn lemma_back_visits_ascending(s: Set<u16>)
    ensures
        model::is_ascending(visited_from_back(s).reverse()),
        visited_from_back(s).reverse().to_set() == s,
    decreases s.len(),
{
    broadcast use model::lemma_finite;

    let v = visited_from_back(s).reverse();
    if s.len() == 0 {
        s.lemma_len0_is_empty();
        assert(v.to_set() =~= s);
    } else {
        law_max_exists(s);
        let x = choose|x: u16| model::is_max(s, x);
        let rest = visited_from_back(s.remove(x)).reverse();
        lemma_back_visits_ascending(s.remove(x));
        assert(v =~= rest.push(x));
        assert forall|i: int| 0 <= i < rest.len() implies rest[i] < x by {
            assert(rest.to_set().contains(rest[i]));
        }
        assert forall|y: u16| v.to_set().contains(y) == s.contains(y) by {
            if s.contains(y) {
                if y == x {
                    assert(v[rest.len() as int] == y);
                } else {
                    assert(rest.to_set().contains(y));
                    let j = choose|j: int| 0 <= j < rest.len() && rest[j] == y;
                    assert(v[j] == y);
                }
            }
            if v.contains(y) {
                let j = choose|j: int| 0 <= j < v.len() && v[j] == y;
                if j < rest.len() {
                    assert(rest[j] == y);
                    assert(rest.to_set().contains(y));
                }
            }
        }
        assert(v.to_set() =~= s);
    }
}

/// In an ascending list of the members of a set, each entry has as many members below it as there
/// are entries before it.
pub proof fn law_ascending_by_rank(v: Seq<u16>, i: int)
    requires
        model::is_ascending(v),
        0 <= i <= v.len(),
    ensures
        i < v.len() ==> model::count_below(v.to_set(), v[i] as int) == i,
        i == v.len() ==> v.to_set().len() == i,
    decreases i,
{
    broadcast use model::lemma_finite;

    let s = v.to_set();
    if i > 0 {
        law_ascending_by_rank(v, i - 1);
        assert(s.contains(v[i - 1]));
        order::law_rank_of_member(s, v[i - 1]);
    }
    if i < v.len() {
        let below = s.filter(|y: u16| y < v[i]);
        if i == 0 {
            assert forall|y: u16| !below.contains(y) by {
                if v.contains(y) {
                    let j = choose|j: int| 0 <= j < v.len() && v[j] == y;
                }
            }
            assert(below =~= Set::empty());
        } else {
            let up_to = s.filter(|y: u16| y < v[i - 1] + 1);
            assert forall|y: u16| below.contains(y) == up_to.contains(y) by {
                if v.contains(y) {
                    let j = choose|j: int| 0 <= j < v.len() && v[j] == y;
                }
            }
            assert(below =~= up_to);
        }
    } else if i == 0 {
        assert(s =~= Set::empty());
    } else {
        let up_to = s.filter(|y: u16| y < v[i - 1] + 1);
        assert forall|y: u16| s.contains(y) implies up_to.contains(y) by {
            let j = choose|j: int| 0 <= j < v.len() && v[j] == y;
        }
        assert(s =~= up_to);
    }
}

/// There is one ascending list of the members of a set.
pub proof fn law_ascending_unique(u: Seq<u16>, v: Seq<u16>)
    requires
        model::is_ascending(u),
        model::is_ascending(v),
        u.to_set() == v.to_set(),
    ensures
        u == v,
{
    law_ascending_by_rank(u, u.len() as int);
    law_ascending_by_rank(v, v.len() as int);
    assert forall|i: int| 0 <= i < u.len() implies u[i] == v[i] by {
        law_ascending_by_rank(u, i);
        law_ascending_by_rank(v, i);
        assert(u.to_set().contains(u[i]));
        assert(v.to_set().contains(v[i]));
        order::law_select_unique(u.to_set(), u[i], v[i]);
    }
    assert(u =~= v);
}

/// The ascending list of the members of a set is what a cursor visits from the front.
pub proof fn law_list_is_visited_from_front(v: Seq<u16>)
    requires
        model::is_ascending(v),
    ensures
        v == visited_from_front(v.to_set()),
{
    law_front_visits_ascending(v.to_set());
    law_ascending_unique(v, visited_from_front(v.to_set()));
}

/// Adding the ascending list of the members of a set to an empty store gives the set back.
pub proof fn law_list_round_trip(s: Set<u16>, v: Seq<u16>)
    requires
        model::is_ascending(v),
        v.to_set() == s,
    ensures
        Set::<u16>::empty().union(v.to_set()) == s,
        v.len() == s.len(),
{
    law_ascending_by_rank(v, v.len() as int);
    assert(Set::<u16>::empty().union(v.to_set()) =~= s);
}

/// An ascending list can be pushed entry by entry: each entry is greater than those before it.
pub proof fn law_push_ascending(v: Seq<u16>, n: int)
    requires
        model::is_ascending(v),
        0 <= n < v.len(),
    ensures
        forall|x: u16| #[trigger] model::first_values(v, n).contains(x) ==> x < v[n],
        model::first_values(v, n).insert(v[n]) == model::first_values(v, n + 1),
        model::first_values(v, v.len() as int) == v.to_set(),
{
    model::lemma_first_values_step(v, n);
    model::lemma_first_values_ends(v);
}

/// A visit from either end leaves one member less, and the two ends never pass each other.
pub proof fn law_visits_count_down(s: Set<u16>, x: u16, y: u16)
    requires
        model::is_min(s, x),
        model::is_max(s.remove(x), y),
    ensures
        s.remove(x).len() == s.len() - 1,
        s.remove(x).remove(y).len() == s.len() - 2,
        x < y,
{
    broadcast use model::lemma_finite;

    assert(s.remove(x).contains(y));
    assert(s.contains(y));
}

/// Runs that a cursor visits from the front one after the other lie apart.
pub proof fn law_runs_apart(s: Set<u16>, a: u16, b: u16, c: u16, d: u16)
    requires
        iter::is_first_run(s, a, b),
        iter::is_first_run(s.difference(model::range_set(a, b)), c, d),
    ensures
        b + 1 < c,
{
    let rest = s.difference(model::range_set(a, b));
    assert(rest.contains(c));
    assert(s.contains(c));
}

/// Runs that a cursor visits from the back one after the other lie apart.
pub proof fn law_runs_apart_from_back(s: Set<u16>, a: u16, b: u16, c: u16, d: u16)
    requires
        iter::is_last_run(s, a, b),
        iter::is_last_run(s.difference(model::range_set(a, b)), c, d),
    ensures
        d + 1 < a,
{
    let rest = s.difference(model::range_set(a, b));
    assert(rest.contains(d));
    assert(s.contains(d));
}

/// There is one first run and one last run.
pub proof fn law_runs_unique(s: Set<u16>, a: u16, b: u16, c: u16, d: u16)
    ensures
        iter::is_first_run(s, a, b) && iter::is_first_run(s, c, d) ==> a == c && b == d,
        iter::is_last_run(s, a, b) && iter::is_last_run(s, c, d) ==> a == c && b == d,
{
    if iter::is_first_run(s, a, b) && iter::is_first_run(s, c, d) {
        if b < d {
            assert(model::range_set(c, d).contains((b + 1) as u16));
        }
        if d < b {
            assert(model::range_set(a, b).contains((d + 1) as u16));
        }
    }
    if iter::is_last_run(s, a, b) && iter::is_last_run(s, c, d) {
        if a < c {
            assert(model::range_set(a, b).contains((c - 1) as u16));
        }
        if c < a {
            assert(model::range_set(c, d).contains((a - 1) as u16));
        }
    }
}

/// The range from `start` to `end` is a run of `s`: all its values are members and the values next
/// to it are not.
pub open spec fn is_run(s: Set<u16>, start: u16, end: u16) -> bool {
    &&& start <= end
    &&& model::range_set(start, end).subset_of(s)
    &&& start > 0 ==> !s.contains((start - 1) as u16)
    &&& end < u16::MAX ==> !s.contains((end + 1) as u16)
}

/// `runs` lists all runs of `s` in ascending order.
pub open spec fn is_run_list(s: Set<u16>, runs: Seq<(u16, u16)>) -> bool {
    &&& forall|i: int| 0 <= i < runs.len() ==> is_run(s, (#[trigger] runs[i]).0, runs[i].1)
    &&& forall|i: int, j: int| 0 <= i < j < runs.len() ==> runs[i].1 < runs[j].0
    &&& forall|x: u16| #[trigger]
        s.contains(x) ==> exists|i: int|
            0 <= i < runs.len() && (#[trigger] runs[i]).0 <= x <= runs[i].1
}

/// What a cursor with the members `s` left hands out when it is moved on run by run from the front
/// until none is left.
pub open spec fn runs_from_front(s: Set<u16>) -> Seq<(u16, u16)>
    decreases s.len(),
{
    if s.len() == 0 {
        Seq::empty()
    } else {
        let (a, b) = choose|a: u16, b: u16| iter::is_first_run(s, a, b);
        proof {
            law_first_run_exists(s);
            law_without_run_len(s, a, b);
        }
        seq![(a, b)] + runs_from_front(s.difference(model::range_set(a, b)))
    }
}

/// What a cursor with the members `s` left hands out when it is moved on run by run from the back
/// until none is left.
pub open spec fn runs_from_back(s: Set<u16>) -> Seq<(u16, u16)>
    decreases s.len(),
{
    if s.len() == 0 {
        Seq::empty()
    } else {
        let (a, b) = choose|a: u16, b: u16| iter::is_last_run(s, a, b);
        proof {
            law_last_run_exists(s);
            law_without_run_len(s, a, b);
        }
        seq![(a, b)] + runs_from_back(s.difference(model::range_set(a, b)))
    }
}

/// Taking a run out of a set makes it smaller.
pub proof fn law_without_run_len(s: Set<u16>, a: u16, b: u16)
    requires
        a <= b,
        model::range_set(a, b).subset_of(s),
    ensures
        s.difference(model::range_set(a, b)).len() < s.len(),
{
    model::lemma_range_len(a, b);
    sets::law_difference_len(s, model::range_set(a, b));
    assert(s.intersect(model::range_set(a, b)) =~= model::range_set(a, b));
}

/// A set with members has a first run.
pub proof fn law_first_run_exists(s: Set<u16>)
    requires
        s.len() > 0,
    ensures
        exists|a: u16, b: u16| iter::is_first_run(s, a, b),
{
    law_min_exists(s);
    let a = choose|a: u16| model::is_min(s, a);
    let b = lemma_extend_up(s, a, a);
    assert(iter::is_first_run(s, a, b));
}

proof fn lemma_extend_up(s: Set<u16>, a: u16, b: u16) -> (end: u16)
    requires
        a <= b,
        model::range_set(a, b).subset_of(s),
    ensures
        a <= end,
        model::range_set(a, end).subset_of(s),
        end < u16::MAX ==> !s.contains((end + 1) as u16),
    decreases u16::MAX - b,
{
    if b < u16::MAX && s.contains((b + 1) as u16) {
        lemma_extend_up(s, a, (b + 1) as u16)
    } else {
        b
    }
}

/// A set with members has a last run.
pub proof fn law_last_run_exists(s: Set<u16>)
    requires
        s.len() > 0,
    ensures
        exists|a: u16, b: u16| iter::is_last_run(s, a, b),
{
    law_max_exists(s);
    let b = choose|b: u16| model::is_max(s, b);
    let a = lemma_extend_down(s, b, b);
    assert(iter::is_last_run(s, a, b));
}

proof fn lemma_extend_down(s: Set<u16>, a: u16, b: u16) -> (start: u16)
    requires
        a <= b,
        model::range_set(a, b).subset_of(s),
    ensures
        start <= b,
        model::range_set(start, b).subset_of(s),
        start > 0 ==> !s.contains((start - 1) as u16),
    decreases a,
{
    if a > 0 && s.contains((a - 1) as u16) {
        lemma_extend_down(s, (a - 1) as u16, b)
    } else {
        a
    }
}

/// Two runs of a set that share a value are the same.
pub proof fn law_runs_do_not_overlap(s: Set<u16>, a: u16, b: u16, c: u16, d: u16, x: u16)
    requires
        is_run(s, a, b),
        is_run(s, c, d),
        a <= x <= b,
        c <= x <= d,
    ensures
        a == c,
        b == d,
{
    if a < c {
        assert(model::range_set(a, b).contains((c - 1) as u16));
    }
    if c < a {
        assert(model::range_set(c, d).contains((a - 1) as u16));
    }
    if b < d {
        assert(model::range_set(c, d).contains((b + 1) as u16));
    }
    if d < b {
        assert(model::range_set(a, b).contains((d + 1) as u16));
    }
}

/// From the front, all runs are visited, in ascending order.
pub proof fn law_front_visits_all_runs(s: Set<u16>)
    ensures
        is_run_list(s, runs_from_front(s)),
    decreases s.len(),
{
    broadcast use model::lemma_finite;

    let runs = runs_from_front(s);
    if s.len() == 0 {
        s.lemma_len0_is_empty();
    } else {
        law_first_run_exists(s);
        let (a, b) = choose|a: u16, b: u16| iter::is_first_run(s, a, b);
        let left = s.difference(model::range_set(a, b));
        let rest = runs_from_front(left);
        law_without_run_len(s, a, b);
        law_front_visits_all_runs(left);
        assert forall|i: int| 0 <= i < rest.len() implies b + 1 < (#[trigger] rest[i]).0 && is_run(
            s,
            rest[i].0,
            rest[i].1,
        ) by {
            let (c, d) = rest[i];
            assert(is_run(left, c, d));
            assert(model::range_set(c, d).contains(c));
            assert(left.contains(c));
            assert(s.contains(c));
            assert(model::range_set(c, d).subset_of(s));
        }
        assert(is_run(s, a, b));
        assert forall|i: int| 0 <= i < runs.len() implies is_run(
            s,
            (#[trigger] runs[i]).0,
            runs[i].1,
        ) by {
            if i > 0 {
                assert(runs[i] == rest[i - 1]);
            }
        }
        assert forall|i: int, j: int| 0 <= i < j < runs.len() implies runs[i].1 < runs[j].0 by {
            assert(runs[j] == rest[j - 1]);
            if i > 0 {
                assert(runs[i] == rest[i - 1]);
            }
        }
        assert forall|x: u16| #[trigger] s.contains(x) implies exists|i: int|
            0 <= i < runs.len() && (#[trigger] runs[i]).0 <= x <= runs[i].1 by {
            if left.contains(x) {
                let n = rest.len() as int;
                let j = choose|j: int| 0 <= j < n && (#[trigger] rest[j]).0 <= x <= rest[j].1;
                assert(runs[j + 1] == rest[j]);
            } else {
                assert(runs[0].0 <= x <= runs[0].1);
            }
        }
    }
}

proof fn lemma_back_visits_all_runs(s: Set<u16>)
    ensures
        is_run_list(s, runs_from_back(s).reverse()),
    decreases s.len(),
{
    broadcast use model::lemma_finite;

    let runs = runs_from_back(s).reverse();
    if s.len() == 0 {
        s.lemma_len0_is_empty();
    } else {
        law_last_run_exists(s);
        let (a, b) = choose|a: u16, b: u16| iter::is_last_run(s, a, b);
        let left = s.difference(model::range_set(a, b));
        let rest = runs_from_back(left).reverse();
        let n = rest.len() as int;
        law_without_run_len(s, a, b);
        lemma_back_visits_all_runs(left);
        assert(runs =~= rest.push((a, b)));
        assert forall|i: int| 0 <= i < n implies (#[trigger] rest[i]).1 + 1 < a && is_run(
            s,
            rest[i].0,
            rest[i].1,
        ) by {
            let (c, d) = rest[i];
            assert(is_run(left, c, d));
            assert(model::range_set(c, d).contains(d));
            assert(left.contains(d));
            assert(s.contains(d));
            assert(model::range_set(c, d).subset_of(s));
        }
        assert(is_run(s, a, b));
        assert forall|i: int| 0 <= i < runs.len() implies is_run(
            s,
            (#[trigger] runs[i]).0,
            runs[i].1,
        ) by {
            if i < n {
                assert(runs[i] == rest[i]);
            }
        }
        assert forall|i: int, j: int| 0 <= i < j < runs.len() implies runs[i].1 < runs[j].0 by {
            assert(runs[i] == rest[i]);
            if j < n {
                assert(runs[j] == rest[j]);
            }
        }
        assert forall|x: u16| #[trigger] s.contains(x) implies exists|i: int|
            0 <= i < runs.len() && (#[trigger] runs[i]).0 <= x <= runs[i].1 by {
            if left.contains(x) {
                let j = choose|j: int| 0 <= j < n && (#[trigger] rest[j]).0 <= x <= rest[j].1;
                assert(runs[j] == rest[j]);
            } else {
                assert(runs[n].0 <= x <= runs[n].1);
            }
        }
    }
}

/// There is one list of all runs of a set in ascending order.
pub proof fn law_run_list_unique(s: Set<u16>, u: Seq<(u16, u16)>, v: Seq<(u16, u16)>)
    requires
        is_run_list(s, u),
        is_run_list(s, v),
    ensures
        u == v,
{
    let su = u.map_values(|r: (u16, u16)| r.0);
    let sv = v.map_values(|r: (u16, u16)| r.0);
    lemma_run_starts(s, u, v);
    lemma_run_starts(s, v, u);
    assert(su.to_set() =~= sv.to_set());
    law_ascending_unique(su, sv);
    assert(su.len() == u.len() && sv.len() == v.len());
    assert forall|i: int| 0 <= i < u.len() implies u[i] == v[i] by {
        assert(su[i] == u[i].0 && sv[i] == v[i].0);
        law_runs_do_not_overlap(s, u[i].0, u[i].1, v[i].0, v[i].1, u[i].0);
    }
    assert(u =~= v);
}

proof fn lemma_run_starts(s: Set<u16>, u: Seq<(u16, u16)>, v: Seq<(u16, u16)>)
    requires
        is_run_list(s, u),
        is_run_list(s, v),
    ensures
        model::is_ascending(u.map_values(|r: (u16, u16)| r.0)),
        u.map_values(|r: (u16, u16)| r.0).to_set().subset_of(
            v.map_values(|r: (u16, u16)| r.0).to_set(),
        ),
{
    let su = u.map_values(|r: (u16, u16)| r.0);
    let sv = v.map_values(|r: (u16, u16)| r.0);
    assert forall|i: int, j: int| 0 <= i < j < su.len() implies su[i] < su[j] by {
        assert(is_run(s, u[i].0, u[i].1));
        assert(u[i].1 < u[j].0);
    }
    assert forall|x: u16| su.to_set().contains(x) implies sv.to_set().contains(x) by {
        let i = choose|i: int| 0 <= i < su.len() && su[i] == x;
        assert(is_run(s, u[i].0, u[i].1));
        assert(model::range_set(u[i].0, u[i].1).contains(x));
        assert(s.contains(x));
        let j = choose|j: int| 0 <= j < v.len() && (#[trigger] v[j]).0 <= x <= v[j].1;
        law_runs_do_not_overlap(s, u[i].0, u[i].1, v[j].0, v[j].1, x);
        assert(sv[j] == x);
    }
}

/// From the back, all runs are visited in the opposite order.
pub proof fn law_back_visits_runs_reversed(s: Set<u16>)
    ensures
        runs_from_back(s) == runs_from_front(s).reverse(),
{
    law_front_visits_all_runs(s);
    lemma_back_visits_all_runs(s);
    law_run_list_unique(s, runs_from_back(s).reverse(), runs_from_front(s));
    assert(runs_from_back(s) =~= runs_from_back(s).reverse().reverse());
}

/// Advancing both ends leaves the members between them.
pub proof fn law_advance_both(s: Set<u16>, lo: u16, hi: u16)
    ensures
        s.filter(|x: u16| lo <= x).filter(|x: u16| x <= hi) == s.intersect(
            model::range_set(lo, hi),
        ),
{
    assert(s.filter(|x: u16| lo <= x).filter(|x: u16| x <= hi) =~= s.intersect(
        model::range_set(lo, hi),
    ));
}

} // verus!
