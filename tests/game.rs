use battleship::board::{Board, CellState, BOARD_SIZE};
use battleship::game::{generate_opponent_move, Game, Turn};
use rand::rngs::StdRng;
use rand::SeedableRng;

fn one_ship_board(row: usize, col: usize, size: usize) -> Board {
    let mut b = Board::new();
    assert!(b.try_place_ship(row, col, size, true));
    b
}

#[test]
fn miss_passes_the_turn() {
    let mut g = Game::from_boards(one_ship_board(0, 0, 2), one_ship_board(5, 5, 2));
    assert_eq!(g.turn(), Turn::PlayerTurn);
    let r = g.take_shot(0, 0);
    assert_eq!(r.outcome, CellState::Miss);
    assert!(r.sunk.is_empty());
    assert_eq!(g.turn(), Turn::OpponentTurn);
    assert_eq!(g.opponent_board().cell(0, 0), CellState::Miss);
    assert_eq!(g.player_board().cell(0, 0), CellState::Ship);
    let r = g.take_shot(9, 9);
    assert_eq!(r.outcome, CellState::Miss);
    assert_eq!(g.turn(), Turn::PlayerTurn);
    assert_eq!(g.player_board().cell(9, 9), CellState::Miss);
}

#[test]
fn hit_keeps_the_turn_and_last_sink_wins() {
    let mut g = Game::from_boards(one_ship_board(0, 0, 2), one_ship_board(5, 5, 2));
    let r = g.take_shot(5, 5);
    assert_eq!(r.outcome, CellState::Hit);
    assert!(r.sunk.is_empty());
    assert_eq!(g.turn(), Turn::PlayerTurn);
    let r = g.take_shot(5, 6);
    assert_eq!(r.outcome, CellState::Hit);
    assert_eq!(r.sunk, vec![0]);
    assert_eq!(g.turn(), Turn::PlayerWon);
    assert_eq!(g.opponent_board().cell(5, 5), CellState::Sunken);
}

#[test]
fn opponent_can_win() {
    let mut g = Game::from_boards(one_ship_board(1, 1, 1), one_ship_board(5, 5, 2));
    g.take_shot(0, 0);
    assert_eq!(g.turn(), Turn::OpponentTurn);
    let r = g.take_shot(1, 1);
    assert_eq!(r.outcome, CellState::Hit);
    assert_eq!(r.sunk, vec![0]);
    assert_eq!(g.turn(), Turn::OpponentWon);
}

#[test]
fn repeated_shot_counts_as_miss() {
    let mut g = Game::from_boards(one_ship_board(0, 0, 2), one_ship_board(5, 5, 2));
    assert_eq!(g.take_shot(5, 5).outcome, CellState::Hit);
    assert_eq!(g.take_shot(5, 5).outcome, CellState::Miss);
    assert_eq!(g.turn(), Turn::OpponentTurn);
    assert_eq!(g.opponent_board().cell(5, 5), CellState::Hit);
}

#[test]
fn new_game_has_two_fleets() {
    let mut rng = StdRng::seed_from_u64(42);
    let g = Game::new(&mut rng).ok().unwrap();
    assert_eq!(g.turn(), Turn::PlayerTurn);
    assert_eq!(g.player_board().ship_count(), 10);
    assert_eq!(g.opponent_board().ship_count(), 10);
}

#[test]
fn opponent_moves_stay_on_the_board() {
    let mut rng = StdRng::seed_from_u64(3);
    let mut seen_nonzero = false;
    for _ in 0..200 {
        let (r, c) = generate_opponent_move(&mut rng);
        assert!(r < BOARD_SIZE && c < BOARD_SIZE);
        if r != 0 || c != 0 {
            seen_nonzero = true;
        }
    }
    assert!(seen_nonzero);
}
