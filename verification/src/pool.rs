//! Pools of dice: their order, and the one die that a reroll replaces.

use vstd::prelude::*;

verus! {

/// Every die shows a face of a ten-sided die.
pub open spec fn valid_faces(pool: Seq<u8>) -> bool {
    forall|i: int| 0 <= i < pool.len() ==> 1 <= #[trigger] pool[i] <= 10
}

/// No die is followed by a higher one.
pub open spec fn is_descending(pool: Seq<u8>) -> bool {
    forall|i: int, j: int| 0 <= i <= j < pool.len() ==> pool[i] >= pool[j]
}

/// `sorted` holds the dice of `pool`, highest first.
pub open spec fn is_sorted_pool(sorted: Seq<u8>, pool: Seq<u8>) -> bool {
    is_descending(sorted) && sorted.to_multiset() == pool.to_multiset()
}

/// `i` is the place of the first die of `pool` that shows `face`.
pub open spec fn first_at(pool: Seq<u8>, face: u8, i: int) -> bool {
    &&& 0 <= i < pool.len()
    &&& pool[i] == face
    &&& forall|j: int| 0 <= j < i ==> pool[j] != face
}

/// The pool after a reroll that came up `value`: the first die that shows a
/// one is replaced, and a pool without a one stays as it is.
pub open spec fn reroll_of(pool: Seq<u8>, value: u8) -> Seq<u8> {
    match pool.index_of_first(1u8) {
        Some(i) => pool.update(i, value),
        None => pool,
    }
}

/// The place that a reroll changes is that of the first one.
pub proof fn lemma_first_one(pool: Seq<u8>, i: int)
    requires
        first_at(pool, 1u8, i),
    ensures
        pool.contains(1u8),
        pool.index_of_first(1u8) == Some(i),
{
    pool.index_of_first_ensures(1u8);
    let at = pool.index_of_first(1u8).unwrap();
    if at < i {
        assert(pool[at] != 1u8);
    }
}

/// Puts the dice in descending order of their face values.
pub fn ordina_decrescente(dadi: &mut Vec<u8>)
    ensures
        is_sorted_pool(final(dadi)@, old(dadi)@),
        final(dadi)@.len() == old(dadi)@.len(),
{
    let n = dadi.len();
    let mut i: usize = 1;
    while i < n
        invariant
            dadi.len() == n,
            1 <= i,
            dadi@.to_multiset() == old(dadi)@.to_multiset(),
            forall|a: int, b: int| 0 <= a <= b < i && b < n ==> dadi@[a] >= dadi@[b],
        decreases n - i,
    {
        let mut j: usize = i;
        while j > 0 && dadi[j - 1] < dadi[j]
            invariant
                dadi.len() == n,
                j <= i < n,
                dadi@.to_multiset() == old(dadi)@.to_multiset(),
                forall|a: int, b: int|
                    0 <= a <= b <= i && a != j && b != j ==> dadi@[a] >= dadi@[b],
                forall|b: int| j < b <= i ==> dadi@[j as int] >= dadi@[b],
            decreases j,
        {
            let basso = dadi[j - 1];
            let alto = dadi[j];
            proof {
                assert(dadi@[j - 1] == basso);
                assert(dadi@.contains(basso));
                vstd::seq_lib::to_multiset_contains(dadi@, basso);
                vstd::seq_lib::to_multiset_update(dadi@, j - 1, alto);
                vstd::seq_lib::to_multiset_update(dadi@.update(j - 1, alto), j as int, basso);
                assert(dadi@.update(j - 1, alto).update(j as int, basso).to_multiset()
                    =~= dadi@.to_multiset()) by {
                    broadcast use vstd::multiset::group_multiset_axioms;

                }
            }
            dadi.set(j - 1, alto);
            dadi.set(j, basso);
            j -= 1;
        }
        i += 1;
    }
}

/// The place of the first die that shows a one.
pub fn primo_uno(dadi: &Vec<u8>) -> (posto: Option<usize>)
    ensures
        match posto {
            Some(i) => first_at(dadi@, 1u8, i as int),
            None => !dadi@.contains(1u8),
        },
{
    let mut i: usize = 0;
    while i < dadi.len()
        invariant
            i <= dadi.len(),
            forall|j: int| 0 <= j < i ==> dadi@[j] != 1u8,
        decreases dadi.len() - i,
    {
        if dadi[i] == 1 {
            return Some(i);
        }
        i += 1;
    }
    None
}

/// Replaces the first die that shows a one by a die that shows `nuovo`, and
/// says whether there was one.
pub fn sostituisci_primo_uno(dadi: &mut Vec<u8>, nuovo: u8) -> (sostituito: bool)
    ensures
        sostituito == old(dadi)@.contains(1u8),
        final(dadi)@ == reroll_of(old(dadi)@, nuovo),
{
    proof {
        dadi@.index_of_first_ensures(1u8);
    }
    match primo_uno(dadi) {
        Some(i) => {
            proof {
                lemma_first_one(dadi@, i as int);
            }
            dadi.set(i, nuovo);
            true
        },
        None => false,
    }
}

} // verus!
