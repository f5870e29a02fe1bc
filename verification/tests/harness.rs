use deep_sea::clayton::solver::{ClaytonSolver, ClaytonSolver2};
use deep_sea::deep_sea::{Position, Tile, TreasureDecision, DiveDirection, DeepSea};
use deep_sea::engine::{score_state, Engine};
use deep_sea::error::DeepSeaError;
use deep_sea::solver::{RandomSolver, Solver};
use deep_sea::treasure::Treasure;

fn two_agents() -> Vec<Solver> {
    vec![
        Solver::Clayton(ClaytonSolver::default()),
        Solver::Clayton2(ClaytonSolver2::default()),
    ]
}

#[test]
fn default_board_has_eight_chips_per_tier_in_blocks() {
    let engine = Engine::make_default_game(two_agents());
    let path = engine.state().path();
    assert_eq!(path.len(), 32);
    for (i, tile) in path.iter().enumerate() {
        let expected = if i < 8 {
            Treasure::One
        } else if i < 16 {
            Treasure::Two
        } else if i < 24 {
            Treasure::Three
        } else {
            Treasure::Four
        };
        assert_eq!(*tile, Tile::Treasure(expected));
    }
}

#[test]
fn one_turn_burns_oxygen_and_moves_by_the_dice() {
    let mut engine = Engine::make_default_game(two_agents());
    assert!(engine.take_turn().is_ok());
    let state = engine.state();
    assert_eq!(state.oxygen(), 24);
    assert_eq!(state.player_idx(), 1);
    // the dice sum two draws from 1..=3, so the first descent lands on one
    // of the tiles 1..=5
    match state.players()[0].position() {
        Position::Diving(i) => assert!((1..=5).contains(&i)),
        other => panic!("after the first turn the player should dive, not be {other:?}"),
    }
}

#[test]
fn a_full_round_reports_one_score_per_seat() {
    let engine = Engine::make_default_game(two_agents());
    let scores = engine.play_one_round().expect("a round always finishes");
    assert_eq!(scores.len(), 2);
}

#[test]
fn random_agents_also_finish_their_round() {
    let seats: Vec<Solver> = (0..6).map(|_| Solver::Random(RandomSolver::default())).collect();
    let engine = Engine::make_default_game(seats);
    let scores = engine.play_one_round().expect("a round always finishes");
    assert_eq!(scores.len(), 6);
}

#[test]
fn multi_round_sessions_are_not_offered() {
    let mut engine = Engine::make_default_game(two_agents());
    assert_eq!(engine.play_three_rounds(), Err(DeepSeaError::UnsupportedMode));
}

#[test]
fn decaying_values_floor_three_below_the_base() {
    // five top-tier chips brought home by one diver: 15 + 14 + 13 + 12 + 12
    let board = vec![Tile::Treasure(Treasure::Four); 5];
    let mut sea = DeepSea::with_oxygen(board, 1, 30);
    assert!(sea.move_player(DiveDirection::Down, 1).is_ok());
    assert!(sea.take_treasure(TreasureDecision::Take).is_ok());
    for _ in 0..4 {
        assert!(sea.move_player(DiveDirection::Down, 1).is_ok());
        assert!(sea.take_treasure(TreasureDecision::Take).is_ok());
    }
    assert!(sea.move_player(DiveDirection::Up, 5).is_ok());
    assert_eq!(sea.players()[0].position(), Position::ReturnedToSubmarine);
    assert_eq!(score_state(&sea), vec![66]);
}

#[test]
fn the_assigner_counts_across_players_in_seat_order() {
    // both players bring one mid-tier chip home: the first scored chip of
    // the tier is worth 7, the second only 6
    let board = vec![Tile::Treasure(Treasure::Two), Tile::Treasure(Treasure::Two)];
    let mut sea = DeepSea::with_oxygen(board, 2, 10);
    assert!(sea.move_player(DiveDirection::Down, 1).is_ok());
    assert!(sea.take_treasure(TreasureDecision::Take).is_ok());
    sea.next_player();
    assert!(sea.move_player(DiveDirection::Down, 2).is_ok());
    assert!(sea.take_treasure(TreasureDecision::Take).is_ok());
    sea.next_player();
    assert!(sea.move_player(DiveDirection::Up, 1).is_ok());
    sea.next_player();
    assert!(sea.move_player(DiveDirection::Up, 2).is_ok());
    assert!(sea.done());
    assert_eq!(score_state(&sea), vec![7, 6]);
}

#[test]
fn evaluation_credit_sums_to_one_unit_per_trial() {
    let kinds = two_agents();
    let tally = Engine::evaluate_solvers(&kinds, 5).expect("evaluation runs");
    assert_eq!(tally.credits.len(), 2);
    assert_eq!(tally.trial_unit, 2);
    assert_eq!(tally.trials, 5);
    let total: u64 = tally.credits.iter().sum();
    assert_eq!(total, 10);
    for &c in tally.credits.iter() {
        assert!(c <= 10);
    }
}

#[test]
fn a_lone_strategy_wins_every_trial() {
    let kinds = vec![Solver::Clayton(ClaytonSolver::default())];
    let tally = Engine::evaluate_solvers(&kinds, 3).expect("evaluation runs");
    assert_eq!(tally.trial_unit, 1);
    assert_eq!(tally.credits, vec![3]);
}

#[test]
fn evaluation_with_a_random_opponent_keeps_the_accounting() {
    let kinds = vec![
        Solver::Clayton2(ClaytonSolver2::default()),
        Solver::Random(RandomSolver::default()),
        Solver::Random(RandomSolver::default()),
    ];
    let tally = Engine::evaluate_solvers(&kinds, 2).expect("evaluation runs");
    assert_eq!(tally.trial_unit, 6);
    let total: u64 = tally.credits.iter().sum();
    assert_eq!(total, 12);
}
