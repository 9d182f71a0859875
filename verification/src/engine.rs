//! The three operations on a pool: a roll, a roll with an optional reroll of
//! one die, and the reroll of one die of a pool that was rolled before.

use crate::error::EngineError;
use crate::finder::selections;
use crate::maximizer::{massimizza_raises, raises_of};
use crate::pool::{
    is_sorted_pool, ordina_decrescente, primo_uno, reroll_of, sostituisci_primo_uno, valid_faces,
};
use crate::roller::{lancia_dadi, tira_dado, valid_count};
use rand::rngs::StdRng;
use vstd::prelude::*;

verus! {

/// A scored pool.
#[derive(Debug, Clone, PartialEq, Eq)]
pub struct DiceResponse {
    /// The dice, highest first.
    pub risultati: Vec<u8>,
    /// The number of raises.
    pub raises: usize,
    /// The raises, in the order of the rounds.
    pub combinazioni: Vec<Vec<u8>>,
}

/// A scored pool, with what it held before one die was rolled again.
#[derive(Debug, Clone, PartialEq, Eq)]
pub struct RollWithRerollResponse {
    /// The dice as they came up.
    pub risultati_originali: Vec<u8>,
    /// What the die that was rolled again came up with, if one was.
    pub rilanciato: Option<u8>,
    /// The dice after the reroll, highest first.
    pub risultati_aggiornati: Vec<u8>,
    /// The number of raises.
    pub raises: usize,
    /// The raises, in the order of the rounds.
    pub combinazioni: Vec<Vec<u8>>,
}

/// `resp` is the score of `pool`: its dice in descending order, and the
/// raises that the greedy search extracts from them.
pub open spec fn is_score_of(resp: DiceResponse, pool: Seq<u8>) -> bool {
    &&& is_sorted_pool(resp.risultati@, pool)
    &&& resp.raises == resp.combinazioni@.len()
    &&& selections(resp.combinazioni@) == raises_of(resp.risultati@)
}

/// The pool that is scored when `originali` came up and the reroll, if there
/// was one, came up `rilanciato`.
pub open spec fn rerolled_pool(originali: Seq<u8>, rilanciato: Option<u8>) -> Seq<u8> {
    match rilanciato {
        Some(v) => reroll_of(originali, v),
        None => originali,
    }
}

/// `resp` scores the dice that it records as they came up, after the reroll
/// that it records.
pub open spec fn is_reroll_score(resp: RollWithRerollResponse) -> bool {
    &&& is_sorted_pool(
        resp.risultati_aggiornati@,
        rerolled_pool(resp.risultati_originali@, resp.rilanciato),
    )
    &&& resp.raises == resp.combinazioni@.len()
    &&& selections(resp.combinazioni@) == raises_of(resp.risultati_aggiornati@)
}

/// Dice that are the same up to their order show valid faces together.
pub proof fn lemma_same_dice_same_faces(a: Seq<u8>, b: Seq<u8>)
    requires
        a.to_multiset() == b.to_multiset(),
        valid_faces(a),
    ensures
        valid_faces(b),
{
    assert forall|i: int| 0 <= i < b.len() implies 1 <= #[trigger] b[i] <= 10 by {
        assert(b.contains(b[i]));
        vstd::seq_lib::to_multiset_contains(b, b[i]);
        vstd::seq_lib::to_multiset_contains(a, b[i]);
        let k = choose|k: int| 0 <= k < a.len() && a[k] == b[i];
        assert(1 <= a[k] <= 10);
    }
}

/// Scores a pool: sorts the dice, highest first, and extracts the raises.
pub fn valuta(dadi: Vec<u8>) -> (resp: DiceResponse)
    ensures
        is_score_of(resp, dadi@),
        resp.risultati@.len() == dadi@.len(),
{
    let mut risultati = dadi;
    ordina_decrescente(&mut risultati);
    let copia = risultati.clone();
    assert(copia@ =~= risultati@);
    let (raises, combinazioni) = massimizza_raises(copia);
    DiceResponse { risultati, raises, combinazioni }
}

/// Rolls `num_dadi` dice and scores them.
pub fn roll_dice(num_dadi: usize, rng: &mut StdRng) -> (esito: Result<DiceResponse, EngineError>)
    ensures
        match esito {
            Ok(resp) => {
                &&& valid_count(num_dadi)
                &&& resp.risultati@.len() == num_dadi
                &&& valid_faces(resp.risultati@)
                &&& is_score_of(resp, resp.risultati@)
            },
            Err(e) => e == EngineError::InvalidArgument && !valid_count(num_dadi),
        },
{
    let dadi = match lancia_dadi(num_dadi, rng) {
        Ok(dadi) => dadi,
        Err(e) => {
            return Err(e);
        },
    };
    let ghost rolled = dadi@;
    let resp = valuta(dadi);
    proof {
        lemma_same_dice_same_faces(rolled, resp.risultati@);
    }
    Ok(resp)
}

/// Scores the dice `originali` after the reroll of the first die that shows
/// a one, where `nuovo` is what that die came up with; with no `nuovo`, or no
/// such die, the dice are scored as they are.
pub fn componi_rilancio(originali: Vec<u8>, nuovo: Option<u8>) -> (resp: RollWithRerollResponse)
    ensures
        resp.risultati_originali@ == originali@,
        resp.rilanciato == if originali@.contains(1u8) {
            nuovo
        } else {
            None
        },
        is_reroll_score(resp),
        resp.risultati_aggiornati@.len() == originali@.len(),
{
    let mut aggiornati = originali.clone();
    assert(aggiornati@ =~= originali@);
    let rilanciato = match nuovo {
        Some(v) => {
            if sostituisci_primo_uno(&mut aggiornati, v) {
                Some(v)
            } else {
                None
            }
        },
        None => None,
    };
    proof {
        originali@.index_of_first_ensures(1u8);
    }
    let valutati = valuta(aggiornati);
    RollWithRerollResponse {
        risultati_originali: originali,
        rilanciato,
        risultati_aggiornati: valutati.risultati,
        raises: valutati.raises,
        combinazioni: valutati.combinazioni,
    }
}

/// Rolls `num_dadi` dice; where `rilancia_uno` asks for it and a die shows a
/// one, rolls the first such die again; then scores the dice.
pub fn roll_with_reroll(num_dadi: usize, rilancia_uno: bool, rng: &mut StdRng) -> (esito: Result<
    RollWithRerollResponse,
    EngineError,
>)
    ensures
        match esito {
            Ok(resp) => {
                &&& valid_count(num_dadi)
                &&& resp.risultati_originali@.len() == num_dadi
                &&& resp.risultati_aggiornati@.len() == num_dadi
                &&& valid_faces(resp.risultati_originali@)
                &&& valid_faces(resp.risultati_aggiornati@)
                &&& resp.rilanciato.is_some() <==> rilancia_uno
                    && resp.risultati_originali@.contains(1u8)
                &&& resp.rilanciato matches Some(v) ==> 1 <= v <= 10
                &&& is_reroll_score(resp)
            },
            Err(e) => e == EngineError::InvalidArgument && !valid_count(num_dadi),
        },
{
    let originali = match lancia_dadi(num_dadi, rng) {
        Ok(dadi) => dadi,
        Err(e) => {
            return Err(e);
        },
    };
    let nuovo = if rilancia_uno && primo_uno(&originali).is_some() {
        Some(tira_dado(rng))
    } else {
        None
    };
    let resp = componi_rilancio(originali, nuovo);
    proof {
        lemma_reroll_keeps_faces(resp.risultati_originali@, resp.rilanciato);
        lemma_same_dice_same_faces(
            rerolled_pool(resp.risultati_originali@, resp.rilanciato),
            resp.risultati_aggiornati@,
        );
    }
    Ok(resp)
}

/// A reroll that comes up with a valid face leaves a valid pool valid.
pub proof fn lemma_reroll_keeps_faces(originali: Seq<u8>, rilanciato: Option<u8>)
    requires
        valid_faces(originali),
        rilanciato matches Some(v) ==> 1 <= v <= 10,
    ensures
        valid_faces(rerolled_pool(originali, rilanciato)),
{
    originali.index_of_first_ensures(1u8);
}

/// Scores the dice `risultati` after the reroll of the first die that shows
/// a one, where `nuovo` is what that die came up with.
pub fn rilancia_con(risultati: Vec<u8>, nuovo: u8) -> (esito: Result<DiceResponse, EngineError>)
    ensures
        match esito {
            Ok(resp) => {
                &&& risultati@.contains(1u8)
                &&& is_score_of(resp, reroll_of(risultati@, nuovo))
                &&& resp.risultati@.len() == risultati@.len()
            },
            Err(e) => e == EngineError::NoRerollTarget && !risultati@.contains(1u8),
        },
{
    let mut dadi = risultati;
    if sostituisci_primo_uno(&mut dadi, nuovo) {
        proof {
            risultati@.index_of_first_ensures(1u8);
        }
        Ok(valuta(dadi))
    } else {
        Err(EngineError::NoRerollTarget)
    }
}

/// Rolls the first die of `risultati` that shows a one again, and scores the
/// dice.
pub fn reroll_dice(risultati: Vec<u8>, rng: &mut StdRng) -> (esito: Result<
    DiceResponse,
    EngineError,
>)
    ensures
        match esito {
            Ok(resp) => {
                &&& risultati@.contains(1u8)
                &&& resp.risultati@.len() == risultati@.len()
                &&& exists|v: u8| 1 <= v <= 10 && is_score_of(resp, reroll_of(risultati@, v))
            },
            Err(e) => e == EngineError::NoRerollTarget && !risultati@.contains(1u8),
        },
{
    if primo_uno(&risultati).is_none() {
        return Err(EngineError::NoRerollTarget);
    }
    let nuovo = tira_dado(rng);
    rilancia_con(risultati, nuovo)
}

/// Rolls the first die of `dadi` that shows a one again, in place, and hands
/// back what it came up with; a pool without a one stays as it is.
pub fn rilancia_uno(dadi: &mut Vec<u8>, rng: &mut StdRng) -> (rilanciato: Option<u8>)
    ensures
        match rilanciato {
            Some(v) => {
                &&& 1 <= v <= 10
                &&& old(dadi)@.contains(1u8)
                &&& final(dadi)@ == reroll_of(old(dadi)@, v)
            },
            None => !old(dadi)@.contains(1u8) && final(dadi)@ == old(dadi)@,
        },
{
    if primo_uno(dadi).is_none() {
        return None;
    }
    let nuovo = tira_dado(rng);
    sostituisci_primo_uno(dadi, nuovo);
    Some(nuovo)
}

} // verus!
