//! The subset finder: depth-first enumeration of the selections of dice whose
//! running sum reaches a threshold.

use vstd::prelude::*;

verus! {

/// The views of a list of selections, in the same order.
pub open spec fn selections(list: Seq<Vec<u8>>) -> Seq<Seq<u8>> {
    Seq::new(list.len(), |i: int| list[i]@)
}

/// Every selection of `tails`, each with `prefix` in front of it.
pub open spec fn with_prefix(prefix: Seq<u8>, tails: Seq<Seq<u8>>) -> Seq<Seq<u8>> {
    Seq::new(tails.len(), |i: int| prefix + tails[i])
}

/// The selections found from position `start` on, in discovery order, when
/// `target` is still missing from the running sum.
///
/// Nothing missing: the selection made so far is complete, and it is the only
/// one. Otherwise the die at `start` is first taken, then left out; past the
/// last die nothing is found.
pub open spec fn crossings_from(dadi: Seq<u8>, start: int, target: int) -> Seq<Seq<u8>>
    decreases dadi.len() - start,
{
    if target <= 0 {
        seq![Seq::<u8>::empty()]
    } else if start < 0 || start >= dadi.len() {
        Seq::<Seq<u8>>::empty()
    } else {
        with_prefix(seq![dadi[start]], crossings_from(dadi, start + 1, target - dadi[start]))
            + crossings_from(dadi, start + 1, target)
    }
}

/// The selections of the whole pool that reach `target`, in discovery order.
pub open spec fn crossings(dadi: Seq<u8>, target: int) -> Seq<Seq<u8>> {
    crossings_from(dadi, 0, target)
}

/// Sum of the face values of a selection.
pub open spec fn face_sum(dice: Seq<u8>) -> int
    decreases dice.len(),
{
    if dice.len() == 0 {
        0
    } else {
        face_sum(dice.drop_last()) + dice.last()
    }
}

/// A selection that reaches `target` with its last die and not before.
pub open spec fn is_raise(dice: Seq<u8>, target: int) -> bool {
    dice.len() > 0 && face_sum(dice.drop_last()) < target <= face_sum(dice)
}

/// A die put in front of a selection adds its face value to the sum.
pub proof fn lemma_face_sum_prepend(die: u8, dice: Seq<u8>)
    ensures
        face_sum(seq![die] + dice) == die + face_sum(dice),
    decreases dice.len(),
{
    if dice.len() == 0 {
        assert(seq![die] + dice =~= seq![die]);
        assert(seq![die].drop_last() =~= Seq::<u8>::empty());
        assert(face_sum(Seq::<u8>::empty()) == 0);
        assert(face_sum(seq![die]) == die);
    } else {
        lemma_face_sum_prepend(die, dice.drop_last());
        assert((seq![die] + dice).drop_last() =~= seq![die] + dice.drop_last());
        assert((seq![die] + dice).last() == dice.last());
    }
}

/// A die put in front of a selection adds one die to its multiset.
pub proof fn lemma_multiset_prepend(die: u8, dice: Seq<u8>)
    ensures
        (seq![die] + dice).to_multiset() == dice.to_multiset().insert(die),
{
    assert(dice.insert(0, die) =~= seq![die] + dice);
    vstd::seq_lib::to_multiset_insert(dice, 0, die);
}

/// Every selection found from `start` on reaches the target, with its last
/// die and not before when anything was missing, and takes its dice from the
/// pool's dice at `start` and after, none more often than it occurs there.
pub proof fn lemma_crossings_from(dadi: Seq<u8>, start: int, target: int, i: int)
    requires
        0 <= start <= dadi.len(),
        0 <= i < crossings_from(dadi, start, target).len(),
    ensures
        target <= face_sum(crossings_from(dadi, start, target)[i]),
        target > 0 ==> is_raise(crossings_from(dadi, start, target)[i], target),
        crossings_from(dadi, start, target)[i].to_multiset().subset_of(
            dadi.skip(start).to_multiset(),
        ),
    decreases dadi.len() - start,
{
    broadcast use vstd::multiset::group_multiset_axioms;

    let found = crossings_from(dadi, start, target);
    if target <= 0 {
        assert(found[i] =~= Seq::<u8>::empty());
        assert(found[i].to_multiset() =~= vstd::multiset::Multiset::<u8>::empty()) by {
            vstd::seq_lib::to_multiset_len(found[i]);
        }
    } else if start < dadi.len() {
        let die = dadi[start];
        let taken = crossings_from(dadi, start + 1, target - die);
        let left = crossings_from(dadi, start + 1, target);
        assert(dadi.skip(start) =~= seq![die] + dadi.skip(start + 1));
        lemma_multiset_prepend(die, dadi.skip(start + 1));
        if i < taken.len() {
            let tail = taken[i];
            lemma_crossings_from(dadi, start + 1, target - die, i);
            assert(found[i] == seq![die] + tail);
            lemma_face_sum_prepend(die, tail);
            lemma_multiset_prepend(die, tail);
            if tail.len() == 0 {
                assert((seq![die] + tail).drop_last() =~= Seq::<u8>::empty());
            } else {
                assert((seq![die] + tail).drop_last() =~= seq![die] + tail.drop_last());
                lemma_face_sum_prepend(die, tail.drop_last());
                assert(target - die > 0) by {
                    if target - die <= 0 {
                        assert(taken[i] =~= Seq::<u8>::empty());
                    }
                }
            }
        } else {
            lemma_crossings_from(dadi, start + 1, target, i - taken.len());
            assert(found[i] == left[i - taken.len()]);
        }
    }
}

/// Prefixing distributes over the two branches of the search, and a prefix
/// grown by one die is the prefix followed by that die.
proof fn lemma_with_prefix_step(prefix: Seq<u8>, die: u8, taken: Seq<Seq<u8>>, left: Seq<Seq<u8>>)
    ensures
        with_prefix(prefix.push(die), taken) + with_prefix(prefix, left) == with_prefix(
            prefix,
            with_prefix(seq![die], taken) + left,
        ),
{
    let lhs = with_prefix(prefix.push(die), taken) + with_prefix(prefix, left);
    let rhs = with_prefix(prefix, with_prefix(seq![die], taken) + left);
    assert(lhs.len() == rhs.len());
    assert forall|i: int| 0 <= i < lhs.len() implies lhs[i] == rhs[i] by {
        if i < taken.len() {
            assert(prefix.push(die) + taken[i] =~= prefix + (seq![die] + taken[i]));
        }
    }
    assert(lhs =~= rhs);
}

/// Appends to `combinazioni` every selection of the dice from `start` on whose
/// running sum first reaches `target`, each behind the dice already held in
/// `combinazione`, which is handed back as it came.
pub fn trova_combinazioni(
    dadi: &Vec<u8>,
    target: i32,
    start: usize,
    combinazione: &mut Vec<u8>,
    combinazioni: &mut Vec<Vec<u8>>,
)
    ensures
        final(combinazione)@ == old(combinazione)@,
        selections(final(combinazioni)@) == selections(old(combinazioni)@) + with_prefix(
            old(combinazione)@,
            crossings_from(dadi@, start as int, target as int),
        ),
    decreases dadi.len() - start,
{
    let ghost found = selections(combinazioni@);
    let ghost prefix = combinazione@;
    if target <= 0 {
        let copia = combinazione.clone();
        assert(copia@ =~= prefix);
        combinazioni.push(copia);
        assert(selections(combinazioni@) =~= found + with_prefix(
            prefix,
            crossings_from(dadi@, start as int, target as int),
        )) by {
            assert(prefix + Seq::<u8>::empty() =~= prefix);
        }
        return ;
    }
    if start >= dadi.len() {
        assert(selections(combinazioni@) =~= found + with_prefix(
            prefix,
            crossings_from(dadi@, start as int, target as int),
        ));
        return ;
    }
    let dado: u8 = dadi[start];
    combinazione.push(dado);
    trova_combinazioni(dadi, target - dado as i32, start + 1, combinazione, combinazioni);
    combinazione.pop();
    assert(combinazione@ =~= prefix);
    trova_combinazioni(dadi, target, start + 1, combinazione, combinazioni);
    proof {
        let taken = crossings_from(dadi@, start + 1, target - dado);
        let left = crossings_from(dadi@, start + 1, target as int);
        lemma_with_prefix_step(prefix, dado, taken, left);
        assert(selections(combinazioni@) =~= found + (with_prefix(prefix.push(dado), taken)
            + with_prefix(prefix, left)));
    }
}

} // verus!
