use raise_engine::maximizer::{gioca_round, rimuovi_dadi};
use raise_engine::{
    massimizza_raises, rilancia_con, sostituisci_primo_uno, trova_combinazioni, valuta,
};

fn take_out(pool: &mut Vec<u8>, dice: &[u8]) -> bool {
    for dado in dice {
        match pool.iter().position(|d| d == dado) {
            Some(posto) => {
                pool.remove(posto);
            }
            None => return false,
        }
    }
    true
}

fn pools() -> Vec<Vec<u8>> {
    vec![
        vec![10, 9, 8, 7, 6, 5, 4, 3, 2, 1],
        vec![9, 9, 9, 7, 1, 1],
        vec![5, 5, 5, 5],
        vec![3, 3, 2, 2, 2, 1, 1],
        vec![1, 10, 1, 10, 2, 8, 3, 7],
        vec![6, 6, 6, 6, 6, 6, 6],
        vec![1, 1, 1],
        vec![],
    ]
}

#[test]
fn every_raise_reaches_ten_with_dice_of_its_round() {
    for pool in pools() {
        let (_, combinazioni) = massimizza_raises(pool.clone());
        let mut restanti = pool;
        for raise in combinazioni {
            let somma: u32 = raise.iter().map(|&d| d as u32).sum();
            assert!(somma >= 10);
            let senza_ultimo: u32 = raise[..raise.len() - 1].iter().map(|&d| d as u32).sum();
            assert!(senza_ultimo < 10);
            assert!(take_out(&mut restanti, &raise));
        }
    }
}

#[test]
fn no_die_is_counted_twice() {
    for pool in pools() {
        let (raises, combinazioni) = massimizza_raises(pool.clone());
        assert_eq!(raises, combinazioni.len());
        let usati: Vec<u8> = combinazioni.concat();
        assert!(usati.len() <= pool.len());
        let mut restanti = pool.clone();
        assert!(take_out(&mut restanti, &usati));
        assert_eq!(restanti.len(), pool.len() - usati.len());
        assert_eq!(massimizza_raises(restanti).0, 0);
    }
}

#[test]
fn same_pool_gives_the_same_result() {
    for pool in pools() {
        assert_eq!(massimizza_raises(pool.clone()), massimizza_raises(pool.clone()));
        let prima = valuta(pool.clone());
        assert_eq!(prima, valuta(pool));
        assert_eq!(prima, valuta(prima.risultati.clone()));
    }
}

#[test]
fn reroll_may_leave_the_count_unchanged() {
    assert_eq!(massimizza_raises(vec![10, 1]).0, 1);
    assert_eq!(rilancia_con(vec![10, 1], 1).unwrap().raises, 1);
}

#[test]
fn reroll_may_increase_the_count() {
    assert_eq!(massimizza_raises(vec![10, 1]).0, 1);
    assert_eq!(rilancia_con(vec![10, 1], 10).unwrap().raises, 2);
}

#[test]
fn reroll_may_decrease_the_count() {
    let prima = massimizza_raises(vec![9, 9, 9, 7, 1, 1]);
    assert_eq!(prima, (3, vec![vec![9, 1], vec![9, 1], vec![9, 7]]));
    let dopo = rilancia_con(vec![9, 9, 9, 7, 1, 1], 2).unwrap();
    assert_eq!(dopo.risultati, vec![9, 9, 9, 7, 2, 1]);
    assert_eq!(dopo.raises, 2);
    assert_eq!(dopo.combinazioni, vec![vec![7, 2, 1], vec![9, 9]]);
}

fn raises_by_places(pool: &[u8], target: u32) -> Vec<(Vec<usize>, Vec<u8>)> {
    let mut all = Vec::new();
    for mask in 1u32..(1u32 << pool.len()) {
        let places: Vec<usize> = (0..pool.len()).filter(|&i| mask & (1u32 << i) != 0).collect();
        let dice: Vec<u8> = places.iter().map(|&i| pool[i]).collect();
        let somma: u32 = dice.iter().map(|&d| d as u32).sum();
        let senza_ultimo = somma - dice[dice.len() - 1] as u32;
        if senza_ultimo < target && target <= somma {
            all.push((places, dice));
        }
    }
    all
}

#[test]
fn finder_finds_the_raises_and_nothing_else() {
    for pool in pools() {
        let mut combinazione = Vec::new();
        let mut trovate = Vec::new();
        trova_combinazioni(&pool, 10, 0, &mut combinazione, &mut trovate);
        let mut attese: Vec<Vec<u8>> =
            raises_by_places(&pool, 10).into_iter().map(|(_, dice)| dice).collect();
        trovate.sort();
        attese.sort();
        assert_eq!(trovate, attese);
    }
}

#[test]
fn finder_finds_first_what_takes_the_earlier_die() {
    for pool in pools() {
        let mut combinazione = Vec::new();
        let mut trovate = Vec::new();
        trova_combinazioni(&pool, 10, 0, &mut combinazione, &mut trovate);
        let mut per_posti = raises_by_places(&pool, 10);
        per_posti.sort();
        let attese: Vec<Vec<u8>> = per_posti.into_iter().map(|(_, dice)| dice).collect();
        assert_eq!(trovate, attese);
    }
}

#[test]
fn removal_by_value_matches_removal_by_place_in_a_sorted_pool() {
    let pool = vec![9, 9, 7, 7, 7, 3, 1, 1];
    let places = [1usize, 3, 4, 7];
    let dice: Vec<u8> = places.iter().map(|&p| pool[p]).collect();
    let mut per_valore = pool.clone();
    rimuovi_dadi(&mut per_valore, &dice);
    let per_posto: Vec<u8> =
        (0..pool.len()).filter(|i| !places.contains(i)).map(|i| pool[i]).collect();
    assert_eq!(per_valore, per_posto);
    assert_eq!(per_valore, vec![9, 7, 3, 1]);
}

#[test]
fn sorted_pool_stays_sorted_through_the_rounds() {
    let mut restanti = vec![10, 9, 8, 7, 6, 5, 4, 3, 2, 1];
    while gioca_round(&mut restanti).is_some() {
        assert!(restanti.windows(2).all(|w| w[0] >= w[1]));
    }
    assert_eq!(restanti, vec![9]);
}

#[test]
fn reroll_changes_one_place_and_no_other() {
    let prima = vec![4, 1, 7, 1, 1];
    let mut dopo = prima.clone();
    assert!(sostituisci_primo_uno(&mut dopo, 6));
    let diversi: Vec<usize> = (0..prima.len()).filter(|&i| prima[i] != dopo[i]).collect();
    assert_eq!(diversi, vec![1]);
    assert_eq!(dopo[1], 6);
}
