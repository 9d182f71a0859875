use rand::rngs::StdRng;
use rand::SeedableRng;
use raise_engine::{
    componi_rilancio, lancia_dadi, massimizza_raises, reroll_dice, rilancia_con, rilancia_uno,
    roll_dice, roll_with_reroll, valuta, DiceResponse, EngineError, RollWithRerollResponse,
};

fn descending(dadi: &[u8]) -> bool {
    dadi.windows(2).all(|w| w[0] >= w[1])
}

fn valid(dadi: &[u8]) -> bool {
    dadi.iter().all(|&d| (1..=10).contains(&d))
}

fn sorted(dadi: &[u8]) -> Vec<u8> {
    let mut v = dadi.to_vec();
    v.sort_unstable_by(|a, b| b.cmp(a));
    v
}

#[test]
fn rolled_faces_lie_between_one_and_ten() {
    let mut rng = StdRng::seed_from_u64(7);
    let mut tutti = Vec::new();
    for _ in 0..5 {
        let dadi = lancia_dadi(100, &mut rng).unwrap();
        assert_eq!(dadi.len(), 100);
        assert!(valid(&dadi));
        tutti.extend(dadi);
    }
    for faccia in 1..=10u8 {
        assert!(tutti.contains(&faccia));
    }
}

#[test]
fn roller_refuses_counts_outside_its_bounds() {
    let mut rng = StdRng::seed_from_u64(7);
    assert_eq!(lancia_dadi(0, &mut rng), Err(EngineError::InvalidArgument));
    assert_eq!(lancia_dadi(101, &mut rng), Err(EngineError::InvalidArgument));
    assert_eq!(lancia_dadi(1, &mut rng).unwrap().len(), 1);
    assert_eq!(lancia_dadi(100, &mut rng).unwrap().len(), 100);
}

#[test]
fn score_sorts_and_maximizes() {
    assert_eq!(
        valuta(vec![5, 10, 5]),
        DiceResponse { risultati: vec![10, 5, 5], raises: 2, combinazioni: vec![vec![5, 5], vec![10]] }
    );
    assert_eq!(
        valuta(vec![1, 1, 1]),
        DiceResponse { risultati: vec![1, 1, 1], raises: 0, combinazioni: vec![] }
    );
    assert_eq!(valuta(vec![]), DiceResponse { risultati: vec![], raises: 0, combinazioni: vec![] });
}

#[test]
fn zero_dice_is_an_invalid_argument() {
    let mut rng = StdRng::seed_from_u64(1);
    assert_eq!(roll_dice(0, &mut rng), Err(EngineError::InvalidArgument));
    assert_eq!(roll_with_reroll(0, false, &mut rng), Err(EngineError::InvalidArgument));
    assert_eq!(roll_with_reroll(0, true, &mut rng), Err(EngineError::InvalidArgument));
}

#[test]
fn more_than_a_hundred_dice_is_an_invalid_argument() {
    let mut rng = StdRng::seed_from_u64(1);
    assert_eq!(roll_dice(101, &mut rng), Err(EngineError::InvalidArgument));
    assert_eq!(roll_dice(usize::MAX, &mut rng), Err(EngineError::InvalidArgument));
    assert_eq!(roll_with_reroll(101, true, &mut rng), Err(EngineError::InvalidArgument));
}

#[test]
fn roll_scores_what_it_rolled() {
    for seed in 0..40u64 {
        let mut rng = StdRng::seed_from_u64(seed);
        let num_dadi = 1 + (seed as usize % 10);
        let resp = roll_dice(num_dadi, &mut rng).unwrap();
        assert_eq!(resp.risultati.len(), num_dadi);
        assert!(valid(&resp.risultati));
        assert!(descending(&resp.risultati));
        assert_eq!(resp.raises, resp.combinazioni.len());
        assert_eq!((resp.raises, resp.combinazioni.clone()), massimizza_raises(resp.risultati.clone()));
    }
}

#[test]
fn roll_of_one_die_is_accepted() {
    let mut rng = StdRng::seed_from_u64(3);
    let resp = roll_dice(1, &mut rng).unwrap();
    assert_eq!(resp.risultati.len(), 1);
    assert_eq!(resp.raises, if resp.risultati[0] == 10 { 1 } else { 0 });
}

#[test]
fn roll_with_reroll_replaces_the_first_one_only() {
    let mut with_reroll = 0;
    for seed in 0..200u64 {
        let mut rng = StdRng::seed_from_u64(seed);
        let resp = roll_with_reroll(8, true, &mut rng).unwrap();
        assert_eq!(resp.risultati_originali.len(), 8);
        assert!(valid(&resp.risultati_originali));
        let mut atteso = resp.risultati_originali.clone();
        match atteso.iter().position(|&d| d == 1) {
            Some(posto) => {
                let nuovo = resp.rilanciato.unwrap();
                assert!((1..=10).contains(&nuovo));
                atteso[posto] = nuovo;
                with_reroll += 1;
            }
            None => assert_eq!(resp.rilanciato, None),
        }
        assert_eq!(resp.risultati_aggiornati, sorted(&atteso));
        assert_eq!(
            (resp.raises, resp.combinazioni.clone()),
            massimizza_raises(resp.risultati_aggiornati.clone())
        );
    }
    assert!(with_reroll > 0);
}

#[test]
fn roll_without_the_flag_rerolls_nothing() {
    for seed in 0..100u64 {
        let mut rng = StdRng::seed_from_u64(seed);
        let resp = roll_with_reroll(8, false, &mut rng).unwrap();
        assert_eq!(resp.rilanciato, None);
        assert_eq!(resp.risultati_aggiornati, sorted(&resp.risultati_originali));
    }
}

#[test]
fn compose_with_a_new_face_for_the_first_one() {
    assert_eq!(
        componi_rilancio(vec![3, 1, 1], Some(9)),
        RollWithRerollResponse {
            risultati_originali: vec![3, 1, 1],
            rilanciato: Some(9),
            risultati_aggiornati: vec![9, 3, 1],
            raises: 1,
            combinazioni: vec![vec![9, 1]],
        }
    );
}

#[test]
fn compose_without_a_one_records_no_reroll() {
    assert_eq!(
        componi_rilancio(vec![2, 10, 3], Some(9)),
        RollWithRerollResponse {
            risultati_originali: vec![2, 10, 3],
            rilanciato: None,
            risultati_aggiornati: vec![10, 3, 2],
            raises: 1,
            combinazioni: vec![vec![10]],
        }
    );
}

#[test]
fn compose_without_a_new_face_scores_the_dice_as_they_are() {
    assert_eq!(
        componi_rilancio(vec![1, 9], None),
        RollWithRerollResponse {
            risultati_originali: vec![1, 9],
            rilanciato: None,
            risultati_aggiornati: vec![9, 1],
            raises: 1,
            combinazioni: vec![vec![9, 1]],
        }
    );
}

#[test]
fn reroll_without_a_one_has_no_target() {
    let mut rng = StdRng::seed_from_u64(5);
    assert_eq!(reroll_dice(vec![7, 3, 2], &mut rng), Err(EngineError::NoRerollTarget));
    assert_eq!(reroll_dice(vec![], &mut rng), Err(EngineError::NoRerollTarget));
    assert_eq!(rilancia_con(vec![7, 3, 2], 5), Err(EngineError::NoRerollTarget));
}

#[test]
fn reroll_with_a_given_face_scores_the_changed_pool() {
    assert_eq!(
        rilancia_con(vec![10, 1], 10),
        Ok(DiceResponse { risultati: vec![10, 10], raises: 2, combinazioni: vec![vec![10], vec![10]] })
    );
    assert_eq!(
        rilancia_con(vec![5, 1, 1, 5], 3),
        Ok(DiceResponse { risultati: vec![5, 5, 3, 1], raises: 1, combinazioni: vec![vec![5, 5]] })
    );
}

#[test]
fn reroll_changes_one_die_of_the_pool() {
    for seed in 0..100u64 {
        let mut rng = StdRng::seed_from_u64(seed);
        let resp = reroll_dice(vec![9, 7, 1, 4, 1], &mut rng).unwrap();
        assert_eq!(resp.risultati.len(), 5);
        assert!(descending(&resp.risultati));
        let mut resto = resp.risultati.clone();
        for dado in [9u8, 7, 4, 1] {
            let posto = resto.iter().position(|&d| d == dado).unwrap();
            resto.remove(posto);
        }
        assert_eq!(resto.len(), 1);
        assert!((1..=10).contains(&resto[0]));
        assert_eq!((resp.raises, resp.combinazioni.clone()), massimizza_raises(resp.risultati.clone()));
    }
}

#[test]
fn reroll_in_place_hands_back_the_new_face() {
    let mut rng = StdRng::seed_from_u64(11);
    let mut dadi = vec![4, 1, 1];
    let nuovo = rilancia_uno(&mut dadi, &mut rng).unwrap();
    assert!((1..=10).contains(&nuovo));
    assert_eq!(dadi, vec![4, nuovo, 1]);
    let mut senza = vec![4, 2];
    assert_eq!(rilancia_uno(&mut senza, &mut rng), None);
    assert_eq!(senza, vec![4, 2]);
}

#[test]
fn same_seed_gives_the_same_roll() {
    let mut a = StdRng::seed_from_u64(99);
    let mut b = StdRng::seed_from_u64(99);
    assert_eq!(roll_with_reroll(9, true, &mut a), roll_with_reroll(9, true, &mut b));
}

#[test]
fn one_die_shows_a_face_of_a_ten_sided_die() {
    let mut rng = StdRng::seed_from_u64(21);
    let mut viste = [false; 11];
    for _ in 0..1000 {
        let faccia = raise_engine::tira_dado(&mut rng);
        assert!((1..=10).contains(&faccia));
        viste[faccia as usize] = true;
    }
    assert!(viste[1..].iter().all(|&v| v));
}
