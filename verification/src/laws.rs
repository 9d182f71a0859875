//! What holds of every pool: where the dice of the raises come from, that no
//! die is used twice, that the score depends on the dice alone, which
//! selection wins a round, and how little a reroll changes.

use crate::discovery::{
    comes_before, is_selection_at, lemma_crossing_keeps_order, lemma_discovery_order, places_of,
};
use crate::engine::{is_score_of, DiceResponse};
use crate::finder::{crossings, face_sum, is_raise, selections};
use crate::maximizer::{
    best_index, has_raise, lemma_round_consumes, lemma_without_takes_all, raises_of, winner,
    without,
};
use crate::pool::{first_at, is_descending, reroll_of};
use vstd::prelude::*;

verus! {

/// The pool as it stands when round `k` begins: the dice of the winners of
/// the rounds before have left it.
pub open spec fn pool_at_round(pool: Seq<u8>, k: nat) -> Seq<u8>
    decreases k,
{
    if k == 0 || !has_raise(pool) {
        pool
    } else {
        pool_at_round(without(pool, winner(pool)), (k - 1) as nat)
    }
}

/// Every raise is the winner of its round: it reaches the threshold with its
/// last die and not before, and its dice are dice of the pool as it stood
/// when the round began, none taken more often than the pool held it, in the
/// order in which they stood there.
pub proof fn lemma_raise_from_round_pool(pool: Seq<u8>, k: nat)
    requires
        k < raises_of(pool).len(),
    ensures
        has_raise(pool_at_round(pool, k)),
        raises_of(pool)[k as int] == winner(pool_at_round(pool, k)),
        is_raise(raises_of(pool)[k as int], 10),
        face_sum(raises_of(pool)[k as int]) >= 10,
        raises_of(pool)[k as int].to_multiset().subset_of(pool_at_round(pool, k).to_multiset()),
        exists|places: Seq<int>|
            is_selection_at(raises_of(pool)[k as int], pool_at_round(pool, k), 0, places),
    decreases k,
{
    lemma_round_consumes(pool);
    if k == 0 {
        let best = best_index(crossings(pool, 10));
        lemma_crossing_keeps_order(pool, 0, 10, best);
        assert(is_selection_at(
            raises_of(pool)[0],
            pool_at_round(pool, 0),
            0,
            places_of(pool, 0, 10, best),
        ));
    } else {
        let next = without(pool, winner(pool));
        lemma_raise_from_round_pool(next, (k - 1) as nat);
        assert(raises_of(pool)[k as int] == raises_of(next)[k - 1]);
    }
}

/// The raises and the dice that are left over share the pool out: every die
/// of the pool is in one raise or left over, and in no two; and the dice left
/// over hold no further raise.
pub proof fn lemma_raises_share_pool(pool: Seq<u8>)
    ensures
        raises_of(pool).flatten().to_multiset().add(
            pool_at_round(pool, raises_of(pool).len()).to_multiset(),
        ) == pool.to_multiset(),
        raises_of(pool).flatten().to_multiset().subset_of(pool.to_multiset()),
        raises_of(pool).flatten().len() <= pool.len(),
        !has_raise(pool_at_round(pool, raises_of(pool).len())),
    decreases pool.len(),
{
    broadcast use vstd::multiset::group_multiset_axioms;

    let raises = raises_of(pool);
    let left = pool_at_round(pool, raises.len());
    if has_raise(pool) {
        let won = winner(pool);
        let next = without(pool, won);
        lemma_round_consumes(pool);
        lemma_raises_share_pool(next);
        assert(raises.drop_first() =~= raises_of(next));
        assert(raises.first() == won);
        assert(raises.flatten() == won + raises_of(next).flatten());
        vstd::seq_lib::lemma_multiset_commutative(won, raises_of(next).flatten());
        assert(left == pool_at_round(next, raises_of(next).len()));
        assert(raises.flatten().to_multiset().add(left.to_multiset()) =~= pool.to_multiset());
    } else {
        assert(raises.flatten() =~= Seq::<u8>::empty());
        vstd::seq_lib::to_multiset_len(raises.flatten());
        assert(raises.flatten().to_multiset().add(left.to_multiset()) =~= pool.to_multiset());
    }
    vstd::seq_lib::to_multiset_len(raises.flatten());
    vstd::seq_lib::to_multiset_len(left);
    vstd::seq_lib::to_multiset_len(pool);
}

/// Two runs on one pool list the same raises and count the same number.
pub proof fn lemma_same_pool_same_raises(
    pool: Seq<u8>,
    first: (usize, Vec<Vec<u8>>),
    second: (usize, Vec<Vec<u8>>),
)
    requires
        first.0 == first.1.len(),
        selections(first.1@) == raises_of(pool),
        second.0 == second.1.len(),
        selections(second.1@) == raises_of(pool),
    ensures
        first.0 == second.0,
        selections(first.1@) == selections(second.1@),
        forall|k: int| 0 <= k < first.1.len() ==> first.1@[k]@ == second.1@[k]@,
{
    assert(selections(first.1@).len() == first.1@.len());
    assert(selections(second.1@).len() == second.1@.len());
    assert forall|k: int| 0 <= k < first.1.len() implies first.1@[k]@ == second.1@[k]@ by {
        assert(selections(first.1@)[k] == first.1@[k]@);
        assert(selections(second.1@)[k] == second.1@[k]@);
    }
}

/// Dice in descending order are in the one order that their multiset allows.
pub proof fn lemma_descending_unique(a: Seq<u8>, b: Seq<u8>)
    requires
        is_descending(a),
        is_descending(b),
        a.to_multiset() == b.to_multiset(),
    ensures
        a == b,
{
    let geq = |x: u8, y: u8| x >= y;
    assert(vstd::relations::total_ordering(geq));
    assert(vstd::relations::sorted_by(a, geq));
    assert(vstd::relations::sorted_by(b, geq));
    vstd::seq_lib::lemma_sorted_unique(a, b, geq);
}

/// The places in `pool` of the dice of the selection that wins a round.
pub open spec fn winner_places(pool: Seq<u8>) -> Seq<int> {
    places_of(pool, 0, 10, best_index(crossings(pool, 10)))
}

/// What is left of `pool` once the dice at `places`, given in rising order,
/// have left it.
pub open spec fn without_places(pool: Seq<u8>, places: Seq<int>) -> Seq<u8>
    decreases places.len(),
{
    if places.len() == 0 {
        pool
    } else {
        without_places(pool.remove(places.last()), places.drop_last())
    }
}

/// A pool in descending order stays so when a die leaves it.
pub proof fn lemma_remove_keeps_descending(pool: Seq<u8>, i: int)
    requires
        is_descending(pool),
        0 <= i < pool.len(),
    ensures
        is_descending(pool.remove(i)),
{
    let rest = pool.remove(i);
    assert forall|a: int, b: int| 0 <= a <= b < rest.len() implies rest[a] >= rest[b] by {
        let from_a = if a < i { a } else { a + 1 };
        let from_b = if b < i { b } else { b + 1 };
        assert(rest[a] == pool[from_a]);
        assert(rest[b] == pool[from_b]);
    }
}

/// A pool in descending order stays so when dice leave it by their face
/// values.
pub proof fn lemma_without_keeps_descending(pool: Seq<u8>, used: Seq<u8>)
    requires
        is_descending(pool),
    ensures
        is_descending(without(pool, used)),
    decreases used.len(),
{
    if used.len() > 0 {
        lemma_without_keeps_descending(pool, used.drop_last());
        let mid = without(pool, used.drop_last());
        mid.index_of_first_ensures(used.last());
        if mid.contains(used.last()) {
            lemma_remove_keeps_descending(mid, mid.index_of_first(used.last()).unwrap());
        }
    }
}

/// Dice that leave the pool by their places take their multiset out of the
/// pool's, and leave a pool in descending order as they found it.
pub proof fn lemma_without_places(pool: Seq<u8>, dice: Seq<u8>, places: Seq<int>)
    requires
        is_selection_at(dice, pool, 0, places),
    ensures
        dice.to_multiset().subset_of(pool.to_multiset()),
        without_places(pool, places).to_multiset() == pool.to_multiset().sub(dice.to_multiset()),
        is_descending(pool) ==> is_descending(without_places(pool, places)),
    decreases places.len(),
{
    broadcast use vstd::multiset::group_multiset_axioms;

    if places.len() == 0 {
        vstd::seq_lib::to_multiset_len(dice);
        assert(dice.to_multiset() =~= vstd::multiset::Multiset::<u8>::empty());
        assert(pool.to_multiset().sub(dice.to_multiset()) =~= pool.to_multiset());
    } else {
        let at = places.last();
        let die = dice.last();
        let front = dice.drop_last();
        let front_places = places.drop_last();
        let rest = pool.remove(at);
        assert(pool[at] == die);
        assert forall|k: int| 0 <= k < front_places.len() implies 0 <= #[trigger] front_places[k]
            < rest.len() && rest[front_places[k]] == front[k] by {
            assert(front_places[k] == places[k]);
            assert(places[k] < places[places.len() - 1]);
        }
        assert forall|k: int, l: int| 0 <= k < l < front_places.len() implies front_places[k]
            < front_places[l] by {
            assert(front_places[k] == places[k]);
            assert(front_places[l] == places[l]);
        }
        lemma_without_places(rest, front, front_places);
        vstd::seq_lib::to_multiset_remove(pool, at);
        assert(pool.contains(die));
        vstd::seq_lib::to_multiset_contains(pool, die);
        assert(dice =~= front.push(die));
        vstd::seq_lib::to_multiset_build(front, die);
        assert(without_places(pool, places).to_multiset() =~= pool.to_multiset().sub(
            dice.to_multiset(),
        ));
        if is_descending(pool) {
            lemma_remove_keeps_descending(pool, at);
        }
    }
}

/// In a pool in descending order, dice of one face value stand side by side,
/// so it is all one which of them leaves: taking the dice of a selection out
/// by their face values leaves the very pool that taking them out by their
/// places leaves.
pub proof fn lemma_removal_by_value_is_by_place(pool: Seq<u8>, dice: Seq<u8>, places: Seq<int>)
    requires
        is_descending(pool),
        is_selection_at(dice, pool, 0, places),
    ensures
        without(pool, dice) == without_places(pool, places),
{
    lemma_without_places(pool, dice, places);
    lemma_without_takes_all(pool, dice);
    lemma_without_keeps_descending(pool, dice);
    lemma_descending_unique(without(pool, dice), without_places(pool, places));
}

/// In a round on a pool in descending order the winner's dice leave by
/// their face values as they would by the places where they were found.
pub proof fn lemma_round_removal_by_place(pool: Seq<u8>)
    requires
        is_descending(pool),
        has_raise(pool),
    ensures
        is_selection_at(winner(pool), pool, 0, winner_places(pool)),
        without(pool, winner(pool)) == without_places(pool, winner_places(pool)),
{
    lemma_round_consumes(pool);
    lemma_crossing_keeps_order(pool, 0, 10, best_index(crossings(pool, 10)));
    lemma_removal_by_value_is_by_place(pool, winner(pool), winner_places(pool));
}

/// The winner of a round is, among the selections of the most dice, the one
/// found last: any other selection of as many dice takes, where its places
/// part ways with the winner's, the earlier die.
pub proof fn lemma_winner_comes_last(pool: Seq<u8>, j: int)
    requires
        0 <= j < crossings(pool, 10).len(),
        j != best_index(crossings(pool, 10)),
        crossings(pool, 10)[j].len() >= winner(pool).len(),
    ensures
        crossings(pool, 10)[j].len() == winner(pool).len(),
        comes_before(places_of(pool, 0, 10, j), winner_places(pool)),
{
    lemma_round_consumes(pool);
    let best = best_index(crossings(pool, 10));
    if j > best {
        assert(crossings(pool, 10)[j].len() < crossings(pool, 10)[best].len());
    }
    assert(crossings(pool, 10)[j].len() <= crossings(pool, 10)[best].len());
    lemma_discovery_order(pool, 0, 10, j, best);
}

/// A pool in descending order is in descending order at every round.
pub proof fn lemma_rounds_keep_descending(pool: Seq<u8>, k: nat)
    requires
        is_descending(pool),
    ensures
        is_descending(pool_at_round(pool, k)),
    decreases k,
{
    if k > 0 && has_raise(pool) {
        lemma_without_keeps_descending(pool, winner(pool));
        lemma_rounds_keep_descending(without(pool, winner(pool)), (k - 1) as nat);
    }
}

/// Two scores of one pool are the same score: the same dice in the same
/// order, the same number of raises, the same raises.
pub proof fn lemma_same_pool_same_score(pool: Seq<u8>, a: DiceResponse, b: DiceResponse)
    requires
        is_score_of(a, pool),
        is_score_of(b, pool),
    ensures
        a.risultati@ == b.risultati@,
        a.raises == b.raises,
        selections(a.combinazioni@) == selections(b.combinazioni@),
{
    lemma_descending_unique(a.risultati@, b.risultati@);
    assert(selections(a.combinazioni@).len() == a.combinazioni@.len());
    assert(selections(b.combinazioni@).len() == b.combinazioni@.len());
}

/// The score of a pool is also the score of its own sorted dice, and of any
/// pool that holds the same dice in another order.
pub proof fn lemma_score_ignores_order(pool: Seq<u8>, other: Seq<u8>, a: DiceResponse)
    requires
        is_score_of(a, pool),
        other.to_multiset() == pool.to_multiset(),
    ensures
        is_score_of(a, other),
        is_score_of(a, a.risultati@),
{
}

/// A reroll changes one die and no more: the first die that shows a one
/// takes the new face value, every other die keeps its place and its face;
/// a pool without a one is left as it is.
pub proof fn lemma_reroll_changes_one_die(pool: Seq<u8>, value: u8)
    ensures
        reroll_of(pool, value).len() == pool.len(),
        !pool.contains(1u8) ==> reroll_of(pool, value) == pool,
        pool.contains(1u8) ==> exists|i: int|
            first_at(pool, 1u8, i) && reroll_of(pool, value) == pool.update(i, value),
        pool.contains(1u8) ==> reroll_of(pool, value).to_multiset() == pool.to_multiset().insert(
            value,
        ).remove(1u8),
        forall|i: int, j: int|
            0 <= i < j < pool.len() && reroll_of(pool, value)[i] != pool[i] ==> reroll_of(
                pool,
                value,
            )[j] == pool[j],
{
    pool.index_of_first_ensures(1u8);
    if pool.contains(1u8) {
        let at = pool.index_of_first(1u8).unwrap();
        assert(first_at(pool, 1u8, at));
        vstd::seq_lib::to_multiset_update(pool, at, value);
    }
}

} // verus!
