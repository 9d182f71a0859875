//! The raise maximizer: round after round the best selection found in what is
//! left of the pool becomes a raise, and its dice leave the pool.

use crate::finder::{
    crossings, is_raise, lemma_crossings_from, selections, trova_combinazioni, with_prefix,
};
use vstd::prelude::*;

verus! {

/// The sum that a selection of dice must reach to count as a raise.
pub const THRESHOLD: i32 = 10;

/// `i` is the place of the winner among `found`: no selection holds more
/// dice, and every later one holds fewer.
pub open spec fn is_best(found: Seq<Seq<u8>>, i: int) -> bool {
    &&& 0 <= i < found.len()
    &&& forall|j: int|
        #![trigger found[j]]
        0 <= j < found.len() ==> found[j].len() <= found[i].len()
    &&& forall|j: int|
        #![trigger found[j]]
        i < j < found.len() ==> found[j].len() < found[i].len()
}

/// The place of the winner among `found`.
pub open spec fn best_index(found: Seq<Seq<u8>>) -> int {
    choose|i: int| is_best(found, i)
}

/// What is left of `pool` once each die of `used`, in turn, has taken out the
/// first die of the same face value that was still there.
pub open spec fn without(pool: Seq<u8>, used: Seq<u8>) -> Seq<u8>
    decreases used.len(),
{
    if used.len() == 0 {
        pool
    } else {
        without(pool, used.drop_last()).remove_value(used.last())
    }
}

/// The pool holds a selection that reaches the threshold.
pub open spec fn has_raise(pool: Seq<u8>) -> bool {
    crossings(pool, THRESHOLD as int).len() > 0
}

/// The selection that wins a round played on `pool`.
pub open spec fn winner(pool: Seq<u8>) -> Seq<u8> {
    crossings(pool, THRESHOLD as int)[best_index(crossings(pool, THRESHOLD as int))]
}

/// The raises that the greedy search extracts from `pool`, in the order of
/// the rounds.
pub open spec fn raises_of(pool: Seq<u8>) -> Seq<Seq<u8>>
    decreases pool.len(),
    via raises_of_decreases
{
    if has_raise(pool) {
        seq![winner(pool)] + raises_of(without(pool, winner(pool)))
    } else {
        Seq::<Seq<u8>>::empty()
    }
}

#[via_fn]
proof fn raises_of_decreases(pool: Seq<u8>) {
    if has_raise(pool) {
        lemma_round_consumes(pool);
    }
}

/// Among one selection or more there is a winner.
pub proof fn lemma_best_exists(found: Seq<Seq<u8>>) -> (b: int)
    requires
        found.len() > 0,
    ensures
        is_best(found, b),
        b == best_index(found),
    decreases found.len(),
{
    let b = if found.len() == 1 {
        0
    } else {
        let front = found.drop_last();
        let a = lemma_best_exists(front);
        assert forall|j: int| 0 <= j < front.len() implies #[trigger] front[j] == found[j] by {}
        if found.last().len() >= found[a].len() {
            let last = found.len() - 1;
            assert forall|j: int| #![trigger found[j]] 0 <= j < found.len() implies found[j].len()
                <= found[last].len() by {
                if j < front.len() {
                    assert(front[j].len() <= front[a].len());
                }
            }
            last
        } else {
            assert forall|j: int| #![trigger found[j]] 0 <= j < found.len() implies found[j].len()
                <= found[a].len() by {
                if j < front.len() {
                    assert(front[j].len() <= front[a].len());
                }
            }
            assert forall|j: int| #![trigger found[j]] a < j < found.len() implies found[j].len()
                < found[a].len() by {
                if j < front.len() {
                    assert(front[j].len() < front[a].len());
                }
            }
            a
        }
    };
    lemma_best_unique(found, b, best_index(found));
    b
}

/// There is one winner only.
pub proof fn lemma_best_unique(found: Seq<Seq<u8>>, a: int, b: int)
    requires
        is_best(found, a),
        is_best(found, b),
    ensures
        a == b,
{
    if a < b {
        assert(found[b].len() < found[a].len());
        assert(found[a].len() <= found[b].len());
    } else if b < a {
        assert(found[a].len() < found[b].len());
        assert(found[b].len() <= found[a].len());
    }
}

/// Dice that the pool holds, each at least as often as it is used, all leave
/// it: what is left is the pool's multiset less that of the used dice.
pub proof fn lemma_without_takes_all(pool: Seq<u8>, used: Seq<u8>)
    requires
        used.to_multiset().subset_of(pool.to_multiset()),
    ensures
        without(pool, used).to_multiset() == pool.to_multiset().sub(used.to_multiset()),
        without(pool, used).len() == pool.len() - used.len(),
    decreases used.len(),
{
    broadcast use vstd::multiset::group_multiset_axioms;

    if used.len() == 0 {
        vstd::seq_lib::to_multiset_len(used);
        assert(used.to_multiset() =~= vstd::multiset::Multiset::<u8>::empty());
        assert(pool.to_multiset().sub(used.to_multiset()) =~= pool.to_multiset());
    } else {
        let front = used.drop_last();
        let die = used.last();
        assert(used =~= front.push(die));
        vstd::seq_lib::to_multiset_build(front, die);
        assert(front.to_multiset().subset_of(pool.to_multiset()));
        lemma_without_takes_all(pool, front);
        let mid = without(pool, front);
        assert(mid.to_multiset().count(die) > 0);
        vstd::seq_lib::to_multiset_contains(mid, die);
        mid.index_of_first_ensures(die);
        let at = mid.index_of_first(die).unwrap();
        vstd::seq_lib::to_multiset_remove(mid, at);
        assert(without(pool, used).to_multiset() =~= pool.to_multiset().sub(used.to_multiset()));
    }
}

/// A round that finds a selection has a winner, which is a raise made of
/// dice of the pool; exactly those dice leave the pool, at least one.
pub proof fn lemma_round_consumes(pool: Seq<u8>)
    requires
        has_raise(pool),
    ensures
        is_best(crossings(pool, 10), best_index(crossings(pool, 10))),
        is_raise(winner(pool), 10),
        winner(pool).to_multiset().subset_of(pool.to_multiset()),
        without(pool, winner(pool)).to_multiset() == pool.to_multiset().sub(
            winner(pool).to_multiset(),
        ),
        without(pool, winner(pool)).len() == pool.len() - winner(pool).len(),
        without(pool, winner(pool)).len() < pool.len(),
{
    let found = crossings(pool, 10);
    let b = lemma_best_exists(found);
    lemma_crossings_from(pool, 0, 10, b);
    assert(pool.skip(0) =~= pool);
    lemma_without_takes_all(pool, found[b]);
}

/// The place of the selection that wins the round: the one with the most
/// dice, and among several of that size the one found last.
pub fn combinazione_migliore(combinazioni: &Vec<Vec<u8>>) -> (posto: usize)
    requires
        combinazioni.len() > 0,
    ensures
        is_best(selections(combinazioni@), posto as int),
        posto == best_index(selections(combinazioni@)),
{
    let ghost found = selections(combinazioni@);
    let mut posto: usize = 0;
    let mut k: usize = 1;
    while k < combinazioni.len()
        invariant
            found == selections(combinazioni@),
            1 <= k <= combinazioni.len(),
            posto < k,
            forall|j: int|
                #![trigger found[j]]
                0 <= j < k ==> found[j].len() <= found[posto as int].len(),
            forall|j: int|
                #![trigger found[j]]
                posto < j < k ==> found[j].len() < found[posto as int].len(),
        decreases combinazioni.len() - k,
    {
        assert(found[k as int] == combinazioni[k as int]@);
        assert(found[posto as int] == combinazioni[posto as int]@);
        if combinazioni[k].len() >= combinazioni[posto].len() {
            posto = k;
        }
        k += 1;
    }
    proof {
        let b = lemma_best_exists(found);
        lemma_best_unique(found, posto as int, b);
    }
    posto
}

/// Takes the first die that shows `valore` out of `restanti`, if there is one.
pub fn rimuovi_primo(restanti: &mut Vec<u8>, valore: u8)
    ensures
        final(restanti)@ == old(restanti)@.remove_value(valore),
{
    let mut pos: usize = 0;
    while pos < restanti.len()
        invariant
            restanti@ == old(restanti)@,
            pos <= restanti.len(),
            forall|j: int| 0 <= j < pos ==> restanti@[j] != valore,
        decreases restanti.len() - pos,
    {
        if restanti[pos] == valore {
            proof {
                restanti@.index_of_first_ensures(valore);
                let at = restanti@.index_of_first(valore).unwrap();
                assert(at == pos) by {
                    if at < pos {
                        assert(restanti@[at] != valore);
                    }
                }
            }
            restanti.remove(pos);
            return ;
        }
        pos += 1;
    }
    proof {
        restanti@.index_of_first_ensures(valore);
        if restanti@.contains(valore) {
            let at = restanti@.index_of_first(valore).unwrap();
            assert(restanti@[at] != valore);
        }
    }
}

/// Takes the dice of `usati` out of `restanti`, one after the other, each by
/// its face value.
pub fn rimuovi_dadi(restanti: &mut Vec<u8>, usati: &Vec<u8>)
    ensures
        final(restanti)@ == without(old(restanti)@, usati@),
{
    let mut k: usize = 0;
    while k < usati.len()
        invariant
            k <= usati.len(),
            restanti@ == without(old(restanti)@, usati@.take(k as int)),
        decreases usati.len() - k,
    {
        rimuovi_primo(restanti, usati[k]);
        proof {
            assert(usati@.take(k + 1).drop_last() =~= usati@.take(k as int));
        }
        k += 1;
    }
    proof {
        assert(usati@.take(k as int) =~= usati@);
    }
}

/// Plays one round on what is left of the pool. Where a selection reaches
/// the threshold, the winner is handed back and its dice leave the pool;
/// where none does, the pool is exhausted and stays as it is.
pub fn gioca_round(restanti: &mut Vec<u8>) -> (vinta: Option<Vec<u8>>)
    ensures
        match vinta {
            Some(combinazione) => {
                &&& has_raise(old(restanti)@)
                &&& combinazione@ == winner(old(restanti)@)
                &&& final(restanti)@ == without(old(restanti)@, winner(old(restanti)@))
            },
            None => !has_raise(old(restanti)@) && final(restanti)@ == old(restanti)@,
        },
{
    let mut combinazioni: Vec<Vec<u8>> = Vec::new();
    let mut combinazione_corrente: Vec<u8> = Vec::new();
    trova_combinazioni(restanti, THRESHOLD, 0, &mut combinazione_corrente, &mut combinazioni);
    let ghost found = crossings(restanti@, THRESHOLD as int);
    proof {
        assert(with_prefix(Seq::<u8>::empty(), found) =~= found) by {
            assert forall|i: int| 0 <= i < found.len() implies Seq::<u8>::empty() + found[i]
                == found[i] by {
                assert(Seq::<u8>::empty() + found[i] =~= found[i]);
            }
        }
        assert(selections(combinazioni@) =~= found);
    }
    if combinazioni.is_empty() {
        return None;
    }
    let posto = combinazione_migliore(&combinazioni);
    let combinazione = combinazioni[posto].clone();
    assert(combinazione@ =~= found[posto as int]);
    rimuovi_dadi(restanti, &combinazione);
    Some(combinazione)
}

/// Counts the raises of a pool and lists them: round after round, while what
/// is left of the pool holds a selection that reaches the threshold, the
/// winner becomes a raise and its dice leave the pool.
pub fn massimizza_raises(dadi: Vec<u8>) -> (esito: (usize, Vec<Vec<u8>>))
    ensures
        esito.0 == esito.1.len(),
        selections(esito.1@) == raises_of(dadi@),
{
    let ghost pool = dadi@;
    let mut raises: usize = 0;
    let mut combinazioni_ottimali: Vec<Vec<u8>> = Vec::new();
    let mut restanti = dadi;
    assert(selections(combinazioni_ottimali@) + raises_of(restanti@) =~= raises_of(pool));
    assert(pool.len() == restanti.len());
    while !restanti.is_empty()
        invariant
            raises == combinazioni_ottimali.len(),
            raises + restanti.len() <= pool.len() <= usize::MAX,
            selections(combinazioni_ottimali@) + raises_of(restanti@) == raises_of(pool),
        ensures
            raises == combinazioni_ottimali.len(),
            selections(combinazioni_ottimali@) == raises_of(pool),
        decreases restanti.len(),
    {
        let ghost before = restanti@;
        let ghost listed = selections(combinazioni_ottimali@);
        match gioca_round(&mut restanti) {
            None => {
                assert(listed + raises_of(before) =~= listed);
                break ;
            },
            Some(combinazione) => {
                proof {
                    lemma_round_consumes(before);
                }
                raises += 1;
                combinazioni_ottimali.push(combinazione);
                proof {
                    let won = winner(before);
                    assert(raises_of(before) == seq![won] + raises_of(without(before, won)));
                    assert(selections(combinazioni_ottimali@) =~= listed.push(won));
                    assert(listed.push(won) + raises_of(restanti@) =~= listed + (seq![won]
                        + raises_of(restanti@)));
                }
            },
        }
    }
    (raises, combinazioni_ottimali)
}

} // verus!
