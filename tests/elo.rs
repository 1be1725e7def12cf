use hawthorn::elo::{
    outcome_against, pairings, win_count, GameOutcome, Pairing, Participant, DEFAULT_IMPACT,
};

fn transformed_rating(rating: f64) -> f64 {
    (10.0_f64).powf(rating / 400.0)
}

fn expected_score(r1: f64, r2: f64) -> f64 {
    if r1 == 0.0 && r2 == 0.0 {
        0.0
    } else {
        r1 / (r1 + r2)
    }
}

fn score(outcome: GameOutcome) -> f64 {
    outcome.half_points() as f64 / 2.0
}

fn elo_rating(current_rating: f64, outcome: GameOutcome, expected: f64) -> f64 {
    current_rating + DEFAULT_IMPACT as f64 * (score(outcome) - expected)
}

/// The ratings after the game: the library's pairings, accumulated in order.
fn compute_elo(ps: &Vec<Participant<f64>>) -> Vec<f64> {
    let winners = win_count(ps);
    let mut delta = vec![0.0_f64; ps.len()];
    for p in pairings(ps) {
        let own = ps[p.subject].elo;
        let expected = expected_score(
            transformed_rating(own),
            transformed_rating(ps[p.opponent].elo),
        );
        delta[p.subject] += (elo_rating(own, p.outcome, expected) - own) / winners as f64;
    }
    ps.iter().zip(delta).map(|(p, d)| p.elo + d).collect()
}

fn game(entries: &[(i32, bool, f64)]) -> Vec<Participant<f64>> {
    entries
        .iter()
        .map(|&(deck, win, elo)| Participant::new(0, deck, win, elo))
        .collect()
}

#[test]
fn elo_test_elo_rating() {
    assert_eq!(
        elo_rating(1000.0, GameOutcome::WIN, expected_score(1000.0, 1000.0)),
        1020.0
    );
    assert_eq!(
        elo_rating(1000.0, GameOutcome::LOSE, expected_score(1000.0, 1000.0)),
        980.0
    );
    assert_eq!(
        elo_rating(1000.0, GameOutcome::DRAW, expected_score(1000.0, 1000.0)),
        1000.0
    );
}

#[test]
fn elo_test_compute_elo_with_3_participants_and_1_winner() {
    let test_case = game(&[(1, true, 1000.0), (2, false, 1000.0), (3, false, 1000.0)]);
    let result = compute_elo(&test_case);
    assert_eq!(result[0], 1040.0);
    assert_eq!(result[1], 980.0);
    assert_eq!(result[2], 980.0);
}

#[test]
fn elo_test_compute_elo_with_4_participants_and_2_winners() {
    let test_case = game(&[
        (1, true, 1000.0),
        (2, false, 1000.0),
        (3, true, 1000.0),
        (4, false, 1000.0),
    ]);
    let result = compute_elo(&test_case);
    assert_eq!(result[0], 1020.0);
    assert_eq!(result[1], 980.0);
    assert_eq!(result[2], 1020.0);
    assert_eq!(result[3], 980.0);
}

#[test]
fn elo_test_compute_elo_with_4_participants_and_4_winners() {
    let test_case = game(&[
        (1, true, 1000.0),
        (2, true, 1000.0),
        (3, true, 1000.0),
        (4, true, 1000.0),
    ]);
    let result = compute_elo(&test_case);
    assert_eq!(result[0], 1000.0);
    assert_eq!(result[1], 1000.0);
    assert_eq!(result[2], 1000.0);
    assert_eq!(result[3], 1000.0);
}

#[test]
fn elo_test_compute_elo_with_4_participants_and_0_winners() {
    let test_case = game(&[
        (1, false, 1000.0),
        (2, false, 1000.0),
        (3, false, 1000.0),
        (4, false, 1000.0),
    ]);
    let result = compute_elo(&test_case);
    assert_eq!(result[0], 1000.0);
    assert_eq!(result[1], 1000.0);
    assert_eq!(result[2], 1000.0);
    assert_eq!(result[3], 1000.0);
}

#[test]
fn test_compute_elo_with_3_participants_and_1_winners() {
    let test_case = game(&[
        (1, true, 1079.0),
        (2, false, 800.0),
        (3, false, 700.0),
        (4, false, 750.0),
    ]);
    let result = compute_elo(&test_case);
    assert_eq!(result[0], 1094.9738566157434);
    assert_eq!(result[1], 793.3145076104151);
    assert_eq!(result[2], 695.9437611556393);
    assert_eq!(result[3], 744.7678746182022);
}

#[test]
fn test_compute_elo_with_4_participants_and_1_winner() {
    let test_case = game(&[
        (1, false, 1005.84301848691),
        (2, true, 1115.24769033892),
        (3, false, 861.083933121132),
        (4, false, 976.272195229627),
    ]);
    let result = compute_elo(&test_case);
    assert_eq!(result[0], 991.9406370569111);
    assert_eq!(result[1], 1149.0708727628635);
    assert_eq!(result[2], 853.564090777122);
    assert_eq!(result[3], 963.8712365796924);
}

#[test]
fn test_compute_elo_with_5_participants_and_1_winner() {
    let test_case = game(&[
        (1, false, 1005.84301848691),
        (2, true, 1115.24769033892),
        (3, false, 861.083933121132),
        (4, false, 976.272195229627),
        (5, false, 954.114406112793),
    ]);
    let result = compute_elo(&test_case);
    assert_eq!(result[0], 991.9406370569111);
    assert_eq!(result[1], 1160.407691064819);
    assert_eq!(result[2], 853.564090777122);
    assert_eq!(result[3], 963.8712365796924);
    assert_eq!(result[4], 942.7775878108375);
}

#[test]
fn outcome_rule_covers_every_pair_of_results() {
    assert_eq!(outcome_against(true, true), Some(GameOutcome::DRAW));
    assert_eq!(outcome_against(true, false), Some(GameOutcome::WIN));
    assert_eq!(outcome_against(false, true), Some(GameOutcome::LOSE));
    assert_eq!(outcome_against(false, false), None);
}

#[test]
fn outcome_scores_and_mirrors() {
    assert_eq!(GameOutcome::WIN.half_points(), 2);
    assert_eq!(GameOutcome::DRAW.half_points(), 1);
    assert_eq!(GameOutcome::LOSE.half_points(), 0);
    assert_eq!(GameOutcome::WIN.mirror(), GameOutcome::LOSE);
    assert_eq!(GameOutcome::LOSE.mirror(), GameOutcome::WIN);
    assert_eq!(GameOutcome::DRAW.mirror(), GameOutcome::DRAW);
}

#[test]
fn win_count_counts_winners() {
    assert_eq!(win_count::<f64>(&vec![]), 0);
    let ps = game(&[(1, true, 0.0), (2, false, 0.0), (3, true, 0.0)]);
    assert_eq!(win_count(&ps), 2);
}

#[test]
fn pairings_follow_the_nested_loop_order() {
    let ps = game(&[(1, true, 1000.0), (2, false, 1000.0), (3, false, 1000.0)]);
    let expected = vec![
        Pairing { subject: 0, opponent: 1, outcome: GameOutcome::WIN },
        Pairing { subject: 0, opponent: 2, outcome: GameOutcome::WIN },
        Pairing { subject: 1, opponent: 0, outcome: GameOutcome::LOSE },
        Pairing { subject: 2, opponent: 0, outcome: GameOutcome::LOSE },
    ];
    assert_eq!(pairings(&ps), expected);
}

#[test]
fn pairings_skip_a_deck_listed_twice() {
    let ps = game(&[(7, true, 1000.0), (7, false, 1000.0)]);
    assert!(pairings(&ps).is_empty());
}

#[test]
fn no_winner_means_no_change() {
    let ps = game(&[(1, false, 1234.5), (2, false, 800.25), (3, false, 0.0)]);
    assert!(pairings(&ps).is_empty());
    assert_eq!(compute_elo(&ps), vec![1234.5, 800.25, 0.0]);
}

#[test]
fn two_player_game_is_symmetric() {
    let ps = game(&[(1, false, 1000.0), (2, true, 1000.0)]);
    assert_eq!(
        pairings(&ps),
        vec![
            Pairing { subject: 0, opponent: 1, outcome: GameOutcome::LOSE },
            Pairing { subject: 1, opponent: 0, outcome: GameOutcome::WIN },
        ]
    );
    let result = compute_elo(&ps);
    assert_eq!(result[1] - 1000.0, -(result[0] - 1000.0));
    assert_eq!(result, vec![980.0, 1020.0]);
}

#[test]
fn winners_draw_against_each_other() {
    let ps = game(&[(1, true, 1100.0), (2, true, 900.0), (3, false, 1000.0)]);
    let ps_pairs = pairings(&ps);
    assert!(ps_pairs.contains(&Pairing { subject: 0, opponent: 1, outcome: GameOutcome::DRAW }));
    assert!(ps_pairs.contains(&Pairing { subject: 1, opponent: 0, outcome: GameOutcome::DRAW }));
    assert!(!ps_pairs.iter().any(|p| p.subject == 1 && p.opponent == 2 && p.outcome != GameOutcome::WIN));
    // The stronger winner gives up points to the weaker one in their draw.
    let two = game(&[(1, true, 1100.0), (2, true, 900.0)]);
    let result = compute_elo(&two);
    assert!(result[0] < 1100.0);
    assert!(result[1] > 900.0);
}

#[test]
fn losers_exchange_nothing() {
    let ps = game(&[(1, true, 1000.0), (2, false, 1200.0), (3, false, 800.0)]);
    let ps_pairs = pairings(&ps);
    assert!(!ps_pairs.iter().any(|p| p.subject != 0 && p.opponent != 0));
    assert_eq!(ps_pairs.len(), 4);
}

#[test]
fn rating_is_deterministic() {
    let ps = game(&[
        (1, true, 1079.0),
        (2, false, 800.0),
        (3, false, 700.0),
        (4, false, 750.0),
    ]);
    assert_eq!(pairings(&ps), pairings(&ps));
    assert_eq!(compute_elo(&ps), compute_elo(&ps));
}

#[test]
fn participant_accessors() {
    let p = Participant::new(3, 9, true, 1000.0_f64);
    assert_eq!(p.id, None);
    assert_eq!(p.game_id, 3);
    assert_eq!(p.get_unique_id(), 9);
    assert!(p.get_win());
    assert_eq!(p.get_elo(), 1000.0);
    let q = p.with_elo(1012.5);
    assert_eq!(q.get_elo(), 1012.5);
    assert_eq!(q.deck_id, 9);
    assert_eq!(q.game_id, 3);
}
