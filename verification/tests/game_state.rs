use deep_sea::deep_sea::{DeepSea, DiveDirection, Position, Tile, TreasureDecision};
use deep_sea::engine::score_state;
use deep_sea::error::DeepSeaError;
use deep_sea::treasure::Treasure;

fn two_treasure_board() -> Vec<Tile> {
    vec![Tile::Treasure(Treasure::One), Tile::Treasure(Treasure::One)]
}

#[test]
fn fresh_state_is_waiting_and_unfinished() {
    let sea = DeepSea::new(two_treasure_board(), 2);
    assert_eq!(sea.player_idx(), 0);
    assert_eq!(sea.oxygen(), 25);
    assert!(!sea.done());
    for p in sea.players().iter() {
        assert_eq!(p.position(), Position::WaitingToDive);
        assert_eq!(p.direction(), DiveDirection::Down);
        assert!(p.held_treasures().is_empty());
    }
}

#[test]
fn first_descent_lands_at_distance_minus_one() {
    let board = vec![Tile::Empty; 6];
    let mut sea = DeepSea::with_oxygen(board, 1, 10);
    assert!(sea.move_player(DiveDirection::Down, 3).is_ok());
    assert_eq!(sea.players()[0].position(), Position::Diving(2));
}

#[test]
fn downward_movement_clamps_at_last_tile() {
    let board = vec![Tile::Empty; 4];
    let mut sea = DeepSea::with_oxygen(board, 1, 10);
    assert!(sea.move_player(DiveDirection::Down, 6).is_ok());
    assert_eq!(sea.players()[0].position(), Position::Diving(3));
    assert!(sea.move_player(DiveDirection::Down, 6).is_ok());
    assert_eq!(sea.players()[0].position(), Position::Diving(3));
}

#[test]
fn surfacing_with_distance_at_least_index_is_final() {
    let board = vec![Tile::Empty; 6];
    let mut sea = DeepSea::with_oxygen(board, 1, 10);
    assert!(sea.move_player(DiveDirection::Down, 3).is_ok());
    assert_eq!(sea.players()[0].position(), Position::Diving(2));
    // distance equal to the diving index already reaches the submarine
    assert!(sea.move_player(DiveDirection::Up, 2).is_ok());
    assert_eq!(sea.players()[0].position(), Position::ReturnedToSubmarine);
    assert_eq!(sea.players()[0].direction(), DiveDirection::Up);
    // moving a returned player is rejected and changes nothing
    let r = sea.move_player(DiveDirection::Up, 4);
    assert_eq!(r, Err(DeepSeaError::InvalidMove));
    assert_eq!(sea.players()[0].position(), Position::ReturnedToSubmarine);
}

#[test]
fn surfacing_short_of_the_start_keeps_diving() {
    let board = vec![Tile::Empty; 6];
    let mut sea = DeepSea::with_oxygen(board, 1, 10);
    assert!(sea.move_player(DiveDirection::Down, 5).is_ok());
    assert_eq!(sea.players()[0].position(), Position::Diving(4));
    assert!(sea.move_player(DiveDirection::Up, 3).is_ok());
    assert_eq!(sea.players()[0].position(), Position::Diving(1));
    assert_eq!(sea.players()[0].direction(), DiveDirection::Up);
}

#[test]
fn upward_move_from_the_mouth_returns() {
    let board = vec![Tile::Empty; 3];
    let mut sea = DeepSea::with_oxygen(board, 1, 10);
    assert!(sea.move_player(DiveDirection::Up, 2).is_ok());
    assert_eq!(sea.players()[0].position(), Position::ReturnedToSubmarine);
}

#[test]
fn taking_a_treasure_empties_the_tile_once() {
    let mut sea = DeepSea::with_oxygen(two_treasure_board(), 1, 10);
    assert!(sea.move_player(DiveDirection::Down, 2).is_ok());
    assert_eq!(sea.players()[0].position(), Position::Diving(1));
    assert!(sea.take_treasure(TreasureDecision::Take).is_ok());
    assert_eq!(sea.path()[1], Tile::Empty);
    assert_eq!(sea.players()[0].held_treasures().as_slice(), &[Treasure::One]);
    // the tile is bare now: a second take is rejected
    let r = sea.take_treasure(TreasureDecision::Take);
    assert_eq!(r, Err(DeepSeaError::InvalidTreasure));
    assert_eq!(sea.players()[0].held_treasures().len(), 1);
}

#[test]
fn ignoring_a_treasure_changes_nothing() {
    let mut sea = DeepSea::with_oxygen(two_treasure_board(), 1, 10);
    assert!(sea.move_player(DiveDirection::Down, 2).is_ok());
    assert!(sea.take_treasure(TreasureDecision::Ignore).is_ok());
    assert_eq!(sea.path()[1], Tile::Treasure(Treasure::One));
    assert!(sea.players()[0].held_treasures().is_empty());
}

#[test]
fn resolving_off_the_path_is_rejected() {
    let mut sea = DeepSea::with_oxygen(two_treasure_board(), 1, 10);
    let r = sea.take_treasure(TreasureDecision::Take);
    assert_eq!(r, Err(DeepSeaError::InvalidTreasure));
    let r = sea.take_treasure(TreasureDecision::Ignore);
    assert_eq!(r, Err(DeepSeaError::InvalidTreasure));
}

#[test]
fn oxygen_saturates_at_zero() {
    let mut sea = DeepSea::with_oxygen(two_treasure_board(), 2, 1);
    sea.take_oxygen();
    assert_eq!(sea.oxygen(), 0);
    sea.take_oxygen();
    assert_eq!(sea.oxygen(), 0);
}

#[test]
fn finished_iff_no_oxygen_or_all_returned() {
    // neither condition: unfinished
    let sea = DeepSea::with_oxygen(two_treasure_board(), 2, 4);
    assert!(!sea.done());
    // oxygen exhausted: finished
    let mut sea = DeepSea::with_oxygen(two_treasure_board(), 2, 1);
    sea.take_oxygen();
    assert!(sea.done());
    // everyone returned: finished even with oxygen left
    let mut sea = DeepSea::with_oxygen(two_treasure_board(), 2, 9);
    assert!(sea.move_player(DiveDirection::Up, 1).is_ok());
    sea.next_player();
    assert!(sea.move_player(DiveDirection::Up, 1).is_ok());
    assert!(sea.done());
    assert_eq!(sea.oxygen(), 9);
}

#[test]
fn finished_stays_finished() {
    let mut sea = DeepSea::with_oxygen(two_treasure_board(), 2, 1);
    sea.take_oxygen();
    assert!(sea.done());
    sea.next_player();
    assert!(sea.done());
    assert!(sea.move_player(DiveDirection::Down, 3).is_ok());
    assert!(sea.done());
    sea.next_player();
    assert!(sea.done());
}

#[test]
fn turn_pointer_wraps_round_robin() {
    let mut sea = DeepSea::new(two_treasure_board(), 3);
    assert_eq!(sea.player_idx(), 0);
    sea.next_player();
    assert_eq!(sea.player_idx(), 1);
    sea.next_player();
    assert_eq!(sea.player_idx(), 2);
    sea.next_player();
    assert_eq!(sea.player_idx(), 0);
}

#[test]
fn as_diving_reads_the_index() {
    assert_eq!(Position::Diving(7).as_diving(), Some(7));
    assert_eq!(Position::WaitingToDive.as_diving(), None);
    assert_eq!(Position::ReturnedToSubmarine.as_diving(), None);
}

#[test]
fn duplicate_is_independent() {
    let mut sea = DeepSea::with_oxygen(two_treasure_board(), 1, 5);
    let copy = sea.duplicate();
    assert!(sea.move_player(DiveDirection::Down, 2).is_ok());
    sea.take_oxygen();
    // the copy still shows the state it was taken from
    assert_eq!(copy.players()[0].position(), Position::WaitingToDive);
    assert_eq!(copy.oxygen(), 5);
    assert_eq!(sea.players()[0].position(), Position::Diving(1));
}

#[test]
fn scripted_two_tile_duel_matches_hand_computation() {
    // a 2-tile board, two players, oxygen 4; scripted, no dice
    let mut sea = DeepSea::with_oxygen(two_treasure_board(), 2, 4);

    // player 0: dives two tiles deep and grabs the chip there
    sea.take_oxygen();
    assert!(sea.move_player(DiveDirection::Down, 2).is_ok());
    assert_eq!(sea.players()[0].position(), Position::Diving(1));
    assert!(sea.take_treasure(TreasureDecision::Take).is_ok());
    sea.next_player();

    // player 1: dives one tile, ends up one tile behind, leaves the chip
    sea.take_oxygen();
    assert!(sea.move_player(DiveDirection::Down, 1).is_ok());
    assert_eq!(sea.players()[1].position(), Position::Diving(0));
    assert!(sea.take_treasure(TreasureDecision::Ignore).is_ok());
    sea.next_player();

    // player 0 surfaces
    sea.take_oxygen();
    assert!(sea.move_player(DiveDirection::Up, 2).is_ok());
    assert_eq!(sea.players()[0].position(), Position::ReturnedToSubmarine);
    sea.next_player();

    // player 1 surfaces with the last breath of oxygen
    sea.take_oxygen();
    assert_eq!(sea.oxygen(), 0);
    assert!(sea.move_player(DiveDirection::Up, 1).is_ok());
    assert_eq!(sea.players()[1].position(), Position::ReturnedToSubmarine);
    sea.next_player();

    assert!(sea.done());
    // player 0 brought one lowest-tier chip home: its first assignment is
    // worth 3; player 1 brought nothing
    assert_eq!(score_state(&sea), vec![3, 0]);
    assert_eq!(sea.path()[0], Tile::Treasure(Treasure::One));
    assert_eq!(sea.path()[1], Tile::Empty);
}

#[test]
fn last_breath_still_completes_the_move() {
    // oxygen 1: the first acting player finishes their move, then the game
    // is over before anyone else acts
    let mut sea = DeepSea::with_oxygen(two_treasure_board(), 2, 1);
    sea.take_oxygen();
    assert_eq!(sea.oxygen(), 0);
    assert!(sea.move_player(DiveDirection::Down, 2).is_ok());
    assert_eq!(sea.players()[0].position(), Position::Diving(1));
    assert!(sea.take_treasure(TreasureDecision::Take).is_ok());
    sea.next_player();
    assert!(sea.done());
    // the second player never got a turn
    assert_eq!(sea.players()[1].position(), Position::WaitingToDive);
    assert!(sea.players()[1].held_treasures().is_empty());
    // the diver is still at sea, so the grabbed chip scores nothing
    assert_eq!(score_state(&sea), vec![0, 0]);
}
