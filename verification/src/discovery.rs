//! The order of discovery: which dice of the pool a selection holds, that
//! the finder misses none, and which of two selections it finds first.

use crate::finder::{
    crossings_from, face_sum, is_raise, lemma_crossings_from, lemma_face_sum_prepend,
};
use vstd::prelude::*;

verus! {

/// `places` tells where in `dadi` the dice of `dice` stand: one place for
/// each die, none before `start`, in rising order.
pub open spec fn is_selection_at(
    dice: Seq<u8>,
    dadi: Seq<u8>,
    start: int,
    places: Seq<int>,
) -> bool {
    &&& places.len() == dice.len()
    &&& forall|k: int|
        0 <= k < places.len() ==> start <= #[trigger] places[k] < dadi.len() && dadi[places[k]]
            == dice[k]
    &&& forall|k: int, l: int| 0 <= k < l < places.len() ==> places[k] < places[l]
}

/// The places in the pool of the dice of the `i`-th selection found from
/// `start` on.
pub open spec fn places_of(dadi: Seq<u8>, start: int, target: int, i: int) -> Seq<int>
    decreases dadi.len() - start,
{
    if target <= 0 || start < 0 || start >= dadi.len() {
        Seq::<int>::empty()
    } else if i < crossings_from(dadi, start + 1, target - dadi[start]).len() {
        seq![start] + places_of(dadi, start + 1, target - dadi[start], i)
    } else {
        places_of(
            dadi,
            start + 1,
            target,
            i - crossings_from(dadi, start + 1, target - dadi[start]).len(),
        )
    }
}

/// `a` and `b` part ways at some place, and there `a` takes the earlier die.
pub open spec fn comes_before(a: Seq<int>, b: Seq<int>) -> bool {
    exists|k: int|
        0 <= k < a.len() && k < b.len() && a[k] < b[k] && forall|l: int|
            0 <= l < k ==> a[l] == b[l]
}

/// Every selection found from `start` on holds dice of the pool in the order
/// of their places.
pub proof fn lemma_crossing_keeps_order(dadi: Seq<u8>, start: int, target: int, i: int)
    requires
        0 <= start <= dadi.len(),
        0 <= i < crossings_from(dadi, start, target).len(),
    ensures
        is_selection_at(
            crossings_from(dadi, start, target)[i],
            dadi,
            start,
            places_of(dadi, start, target, i),
        ),
    decreases dadi.len() - start,
{
    if target > 0 {
        let die = dadi[start];
        let taken = crossings_from(dadi, start + 1, target - die);
        if i < taken.len() {
            lemma_crossing_keeps_order(dadi, start + 1, target - die, i);
            let rest = places_of(dadi, start + 1, target - die, i);
            let places = seq![start] + rest;
            let dice = crossings_from(dadi, start, target)[i];
            assert(dice == seq![die] + taken[i]);
            assert forall|k: int| 0 <= k < places.len() implies start <= #[trigger] places[k]
                < dadi.len() && dadi[places[k]] == dice[k] by {
                if k > 0 {
                    assert(places[k] == rest[k - 1]);
                }
            }
            assert forall|k: int, l: int| 0 <= k < l < places.len() implies places[k]
                < places[l] by {
                assert(places[l] == rest[l - 1]);
                if k > 0 {
                    assert(places[k] == rest[k - 1]);
                }
            }
        } else {
            lemma_crossing_keeps_order(dadi, start + 1, target, i - taken.len());
        }
    }
}

/// Nothing is missed: dice that stand in the pool from `start` on, taken in
/// the order of their places, and that reach the target with the last die
/// and not before, are among the selections found, at the place in the order
/// of discovery that the result gives.
pub proof fn lemma_every_raise_is_found(
    dadi: Seq<u8>,
    start: int,
    target: int,
    dice: Seq<u8>,
    places: Seq<int>,
) -> (i: int)
    requires
        0 <= start <= dadi.len(),
        is_selection_at(dice, dadi, start, places),
        is_raise(dice, target),
    ensures
        0 <= i < crossings_from(dadi, start, target).len(),
        crossings_from(dadi, start, target)[i] == dice,
        places_of(dadi, start, target, i) == places,
    decreases dadi.len() - start,
{
    lemma_face_sum_not_negative(dice.drop_last());
    assert(start <= places[0] < dadi.len());
    let die = dadi[start];
    let taken = crossings_from(dadi, start + 1, target - die);
    if places[0] == start {
        let rest = dice.drop_first();
        let rest_places = places.drop_first();
        assert(dice =~= seq![die] + rest);
        lemma_face_sum_prepend(die, rest);
        if rest.len() == 0 {
            assert(face_sum(rest) == 0);
            assert(taken[0] =~= rest);
            assert(places =~= seq![start] + places_of(dadi, start + 1, target - die, 0));
            0
        } else {
            assert(dice.drop_last() =~= seq![die] + rest.drop_last());
            lemma_face_sum_prepend(die, rest.drop_last());
            lemma_face_sum_not_negative(rest.drop_last());
            assert forall|k: int| 0 <= k < rest_places.len() implies start + 1
                <= #[trigger] rest_places[k] < dadi.len() && dadi[rest_places[k]] == rest[k] by {
                assert(rest_places[k] == places[k + 1]);
                assert(places[0] < places[k + 1]);
            }
            assert forall|k: int, l: int| 0 <= k < l < rest_places.len() implies rest_places[k]
                < rest_places[l] by {
                assert(rest_places[k] == places[k + 1]);
                assert(rest_places[l] == places[l + 1]);
            }
            let j = lemma_every_raise_is_found(dadi, start + 1, target - die, rest, rest_places);
            assert(places =~= seq![start] + rest_places);
            j
        }
    } else {
        assert forall|k: int| 0 <= k < places.len() implies start + 1 <= #[trigger] places[k]
            < dadi.len() && dadi[places[k]] == dice[k] by {
            if k > 0 {
                assert(places[0] < places[k]);
            }
        }
        let j = lemma_every_raise_is_found(dadi, start + 1, target, dice, places);
        taken.len() + j
    }
}

/// Of two selections the finder finds first the one that, where their
/// places part ways, takes the earlier die.
pub proof fn lemma_discovery_order(dadi: Seq<u8>, start: int, target: int, i: int, j: int)
    requires
        0 <= start <= dadi.len(),
        0 <= i < j < crossings_from(dadi, start, target).len(),
    ensures
        comes_before(places_of(dadi, start, target, i), places_of(dadi, start, target, j)),
    decreases dadi.len() - start,
{
    let die = dadi[start];
    let taken = crossings_from(dadi, start + 1, target - die);
    let a = places_of(dadi, start, target, i);
    let b = places_of(dadi, start, target, j);
    if j < taken.len() {
        lemma_discovery_order(dadi, start + 1, target - die, i, j);
        let a_rest = places_of(dadi, start + 1, target - die, i);
        let b_rest = places_of(dadi, start + 1, target - die, j);
        let k = choose|k: int|
            0 <= k < a_rest.len() && k < b_rest.len() && a_rest[k] < b_rest[k] && forall|l: int|
                0 <= l < k ==> a_rest[l] == b_rest[l];
        assert(a[k + 1] == a_rest[k]);
        assert(b[k + 1] == b_rest[k]);
        assert forall|l: int| 0 <= l < k + 1 implies a[l] == b[l] by {
            if l > 0 {
                assert(a[l] == a_rest[l - 1]);
                assert(b[l] == b_rest[l - 1]);
            }
        }
        assert(0 <= k + 1 < a.len() && k + 1 < b.len() && a[k + 1] < b[k + 1]);
    } else if i < taken.len() {
        lemma_crossings_from(dadi, start + 1, target, j - taken.len());
        lemma_crossing_keeps_order(dadi, start + 1, target, j - taken.len());
        assert(a[0] == start);
        assert(start + 1 <= b[0]);
        assert(0 <= 0 < a.len() && 0 < b.len() && a[0] < b[0]);
    } else {
        lemma_discovery_order(dadi, start + 1, target, i - taken.len(), j - taken.len());
    }
}

/// No sum of face values is negative.
pub proof fn lemma_face_sum_not_negative(dice: Seq<u8>)
    ensures
        face_sum(dice) >= 0,
    decreases dice.len(),
{
    if dice.len() > 0 {
        lemma_face_sum_not_negative(dice.drop_last());
    }
}

} // verus!
