use deep_sea::clayton::solver::{ClaytonSolver, ClaytonSolver2};
use deep_sea::deep_sea::{DeepSea, DiveDirection, Tile, TreasureDecision};
use deep_sea::treasure::Treasure;

fn board(tiles: &[Tile]) -> Vec<Tile> {
    tiles.to_vec()
}

#[test]
fn estimates_per_tier_in_half_points() {
    assert_eq!(ClaytonSolver::treasure_value(Treasure::One), 3);
    assert_eq!(ClaytonSolver::treasure_value(Treasure::Two), 11);
    assert_eq!(ClaytonSolver::treasure_value(Treasure::Three), 19);
    assert_eq!(ClaytonSolver::treasure_value(Treasure::Four), 27);
}

#[test]
fn forecast_is_deterministic() {
    let sea = DeepSea::with_oxygen(
        board(&[Tile::Treasure(Treasure::Four), Tile::Treasure(Treasure::One)]),
        2,
        6,
    );
    let first = ClaytonSolver::p_win_from_pos(sea.duplicate());
    let second = ClaytonSolver::p_win_from_pos(sea.duplicate());
    assert_eq!(first, second);
}

#[test]
fn forecast_marks_at_least_one_winner() {
    let sea = DeepSea::with_oxygen(board(&[Tile::Empty, Tile::Empty, Tile::Empty]), 3, 7);
    let flags = ClaytonSolver::p_win_from_pos(sea);
    assert_eq!(flags.len(), 3);
    assert!(flags.iter().any(|&f| f));
}

#[test]
fn symmetric_fresh_state_forecasts_a_full_tie() {
    // both players surface empty-handed under the forced continuation, so
    // both tie at score zero and each carries mass one half
    let sea = DeepSea::with_oxygen(
        board(&[Tile::Treasure(Treasure::One), Tile::Treasure(Treasure::One)]),
        2,
        4,
    );
    let flags = ClaytonSolver::p_win_from_pos(sea);
    assert_eq!(flags, vec![true, true]);
}

#[test]
fn a_secured_treasure_decides_the_forecast() {
    // player 0 already holds a top-tier chip; the continuation brings both
    // home, so player 0 is the lone forecast winner and player 1 is behind
    let mut sea = DeepSea::with_oxygen(
        board(&[Tile::Treasure(Treasure::Four), Tile::Treasure(Treasure::One)]),
        2,
        10,
    );
    sea.take_oxygen();
    assert!(sea.move_player(DiveDirection::Down, 1).is_ok());
    assert!(sea.take_treasure(TreasureDecision::Take).is_ok());
    sea.next_player();

    let flags = ClaytonSolver::p_win_from_pos(sea.duplicate());
    assert_eq!(flags, vec![true, false]);
    // it is player 1's turn, and they are not tied for the win
    assert!(!ClaytonSolver::most_likely_to_win_from_pos(sea));
}

#[test]
fn a_lone_leader_is_winning_as_things_stand() {
    let mut sea = DeepSea::with_oxygen(
        board(&[Tile::Treasure(Treasure::Four), Tile::Treasure(Treasure::One)]),
        2,
        10,
    );
    // nobody holds anything yet: nobody strictly leads
    assert!(!ClaytonSolver::p_win(&sea, 0));
    assert!(!ClaytonSolver::p_win(&sea, 1));
    // player 0 grabs the top-tier chip and leads alone
    assert!(sea.move_player(DiveDirection::Down, 1).is_ok());
    assert!(sea.take_treasure(TreasureDecision::Take).is_ok());
    assert!(ClaytonSolver::p_win(&sea, 0));
    assert!(!ClaytonSolver::p_win(&sea, 1));
}

#[test]
fn opponents_scan_in_rotated_order() {
    let path = board(&[Tile::Empty, Tile::Empty]);
    let four = DeepSea::new(path.clone(), 4);
    assert_eq!(ClaytonSolver::opponents(&four, 1), vec![2, 3, 0]);
    assert_eq!(ClaytonSolver::opponents(&four, 3), vec![0, 1, 2]);
    assert_eq!(ClaytonSolver::opponents(&four, 0), vec![1, 2, 3]);
    let solo = DeepSea::new(path, 1);
    assert_eq!(ClaytonSolver::opponents(&solo, 0), Vec::<usize>::new());
}

#[test]
fn baseline_agent_skips_the_lowest_tier() {
    let mut sea = DeepSea::with_oxygen(
        board(&[Tile::Treasure(Treasure::One), Tile::Treasure(Treasure::Two)]),
        1,
        10,
    );
    assert!(sea.move_player(DiveDirection::Down, 1).is_ok());
    let mut agent = ClaytonSolver::default();
    assert_eq!(agent.take_treasure(&sea, 0), TreasureDecision::Ignore);
    assert!(sea.move_player(DiveDirection::Down, 1).is_ok());
    assert_eq!(agent.take_treasure(&sea, 0), TreasureDecision::Take);
}

#[test]
fn baseline_agent_heads_home_once_loaded() {
    let mut sea = DeepSea::with_oxygen(
        board(&[Tile::Treasure(Treasure::Two), Tile::Treasure(Treasure::Two)]),
        1,
        10,
    );
    let mut agent = ClaytonSolver::default();
    assert_eq!(agent.choose_direction(&sea, 0), DiveDirection::Down);
    assert!(sea.move_player(DiveDirection::Down, 1).is_ok());
    assert_eq!(agent.choose_direction(&sea, 0), DiveDirection::Down);
    assert!(sea.take_treasure(TreasureDecision::Take).is_ok());
    assert_eq!(agent.choose_direction(&sea, 0), DiveDirection::Up);
}

#[test]
fn gambler_grabs_any_chip_when_behind() {
    // player 1 stands on a lowest-tier chip, which the baseline skips, but
    // player 0 already secured a top-tier chip, so the gambler is behind
    // and takes it
    let mut sea = DeepSea::with_oxygen(
        board(&[Tile::Treasure(Treasure::One), Tile::Treasure(Treasure::Four)]),
        2,
        20,
    );
    sea.take_oxygen();
    assert!(sea.move_player(DiveDirection::Down, 2).is_ok());
    assert!(sea.take_treasure(TreasureDecision::Take).is_ok());
    sea.next_player();
    sea.take_oxygen();
    assert!(sea.move_player(DiveDirection::Down, 1).is_ok());

    let mut baseline = ClaytonSolver::default();
    let mut gambler = ClaytonSolver2::default();
    assert_eq!(baseline.take_treasure(&sea, 1), TreasureDecision::Ignore);
    assert_eq!(gambler.take_treasure(&sea, 1), TreasureDecision::Take);
}
