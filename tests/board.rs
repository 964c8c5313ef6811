use battleship::board::{Board, CellState, BOARD_SIZE};
use rand::rngs::StdRng;
use rand::SeedableRng;

fn count_cells(b: &Board, s: CellState) -> usize {
    let mut n = 0;
    for r in 0..BOARD_SIZE {
        for c in 0..BOARD_SIZE {
            if b.cell(r, c) == s {
                n += 1;
            }
        }
    }
    n
}

#[test]
fn new_board_is_empty() {
    let b = Board::new();
    assert_eq!(b.ship_count(), 0);
    assert_eq!(count_cells(&b, CellState::Empty), 100);
    assert!(b.is_game_over());
}

#[test]
fn can_place_ship_checks_bounds() {
    let b = Board::new();
    assert!(b.can_place_ship(0, 0, 4, true));
    assert!(b.can_place_ship(0, 6, 4, true));
    assert!(!b.can_place_ship(0, 7, 4, true));
    assert!(b.can_place_ship(6, 0, 4, false));
    assert!(!b.can_place_ship(7, 0, 4, false));
    assert!(!b.can_place_ship(10, 0, 1, true));
    assert!(!b.can_place_ship(0, 10, 1, false));
    assert!(!b.can_place_ship(0, 0, 11, true));
}

#[test]
fn area_clear_ignores_the_cell_itself() {
    let mut b = Board::new();
    assert!(b.try_place_ship(0, 0, 1, true));
    assert!(b.is_area_clear(0, 0));
    assert!(!b.is_area_clear(1, 1));
    assert!(!b.is_area_clear(0, 1));
    assert!(b.is_area_clear(2, 2));
    assert!(b.is_area_clear(0, 2));
    assert!(b.is_area_clear(50, 50));
}

#[test]
fn ships_may_not_touch() {
    let mut b = Board::new();
    assert!(b.try_place_ship(4, 4, 2, true));
    assert!(!b.can_place_ship(4, 4, 1, true));
    assert!(!b.try_place_ship(3, 3, 1, true));
    assert!(!b.try_place_ship(5, 6, 1, true));
    assert!(!b.try_place_ship(2, 6, 2, false));
    assert!(b.try_place_ship(6, 4, 3, true));
    assert_eq!(b.ship_count(), 2);
    assert_eq!(b.ship_positions(0), vec![(4, 4), (4, 5)]);
    assert_eq!(b.ship_positions(1), vec![(6, 4), (6, 5), (6, 6)]);
    assert_eq!(count_cells(&b, CellState::Ship), 5);
}

#[test]
fn vertical_ship_runs_down() {
    let mut b = Board::new();
    assert!(b.try_place_ship(2, 9, 3, false));
    assert_eq!(b.ship_positions(0), vec![(2, 9), (3, 9), (4, 9)]);
    assert_eq!(b.cell(3, 9), CellState::Ship);
    assert!(!b.is_ship_sunken(0));
}

#[test]
fn fire_twice_at_empty_cell() {
    let mut b = Board::new();
    assert_eq!(b.fire(3, 3), CellState::Miss);
    assert_eq!(b.cell(3, 3), CellState::Miss);
    assert_eq!(b.fire(3, 3), CellState::Miss);
    assert_eq!(b.cell(3, 3), CellState::Miss);
}

#[test]
fn fire_twice_at_ship_cell() {
    let mut b = Board::new();
    assert!(b.try_place_ship(0, 0, 2, true));
    assert_eq!(b.fire(0, 1), CellState::Hit);
    assert_eq!(b.cell(0, 1), CellState::Hit);
    assert_eq!(b.fire(0, 1), CellState::Miss);
    assert_eq!(b.cell(0, 1), CellState::Hit);
}

#[test]
fn single_ship_hit_sinks_and_ends_game() {
    let mut b = Board::new();
    assert!(b.try_place_ship(0, 0, 1, true));
    assert!(!b.is_game_over());
    assert_eq!(b.fire(0, 0), CellState::Hit);
    assert_eq!(b.check_for_sunken_ships(), vec![0]);
    assert_eq!(b.cell(0, 0), CellState::Sunken);
    assert!(b.is_ship_sunken(0));
    assert!(b.is_game_over());
}

#[test]
fn miss_leaves_ships_untouched() {
    let mut b = Board::new();
    assert!(b.try_place_ship(0, 0, 3, true));
    assert!(b.try_place_ship(8, 8, 2, false));
    assert_eq!(b.cell(5, 5), CellState::Empty);
    assert_eq!(b.fire(5, 5), CellState::Miss);
    assert_eq!(b.cell(5, 5), CellState::Miss);
    assert_eq!(b.ship_positions(0), vec![(0, 0), (0, 1), (0, 2)]);
    assert_eq!(b.ship_positions(1), vec![(8, 8), (9, 8)]);
    assert!(!b.is_ship_sunken(0));
    assert!(!b.is_ship_sunken(1));
    assert_eq!(count_cells(&b, CellState::Ship), 5);
    assert_eq!(count_cells(&b, CellState::Miss), 1);
}

#[test]
fn sink_check_is_idempotent() {
    let mut b = Board::new();
    assert!(b.try_place_ship(0, 0, 2, true));
    assert!(b.try_place_ship(5, 5, 1, true));
    b.fire(0, 0);
    b.fire(0, 1);
    assert_eq!(b.check_for_sunken_ships(), vec![0]);
    assert_eq!(b.check_for_sunken_ships(), Vec::<usize>::new());
    assert_eq!(b.cell(0, 0), CellState::Sunken);
    assert_eq!(b.cell(0, 1), CellState::Sunken);
    assert_eq!(b.cell(5, 5), CellState::Ship);
    assert!(b.is_ship_sunken(0));
    assert!(!b.is_ship_sunken(1));
}

#[test]
fn partly_hit_ship_stays_afloat() {
    let mut b = Board::new();
    assert!(b.try_place_ship(3, 3, 3, false));
    assert_eq!(b.fire(3, 3), CellState::Hit);
    assert_eq!(b.fire(5, 3), CellState::Hit);
    assert_eq!(b.check_for_sunken_ships(), Vec::<usize>::new());
    assert_eq!(b.cell(3, 3), CellState::Hit);
    assert!(!b.is_game_over());
}

#[test]
fn sink_check_reports_several_ships_in_order() {
    let mut b = Board::new();
    assert!(b.try_place_ship(0, 0, 1, true));
    assert!(b.try_place_ship(0, 5, 1, true));
    assert!(b.try_place_ship(9, 9, 1, true));
    b.fire(9, 9);
    b.fire(0, 0);
    assert_eq!(b.check_for_sunken_ships(), vec![0, 2]);
    assert!(!b.is_game_over());
    b.fire(0, 5);
    assert_eq!(b.check_for_sunken_ships(), vec![1]);
    assert!(b.is_game_over());
}

#[test]
fn game_over_only_when_every_ship_is_sunken() {
    let mut b = Board::new();
    assert!(b.try_place_ship(0, 0, 1, true));
    assert!(b.try_place_ship(2, 2, 1, true));
    b.fire(0, 0);
    b.check_for_sunken_ships();
    assert!(!b.is_game_over());
    b.fire(2, 2);
    b.check_for_sunken_ships();
    assert!(b.is_game_over());
}

fn check_fleet(b: &Board) {
    assert_eq!(b.ship_count(), 10);
    assert_eq!(count_cells(b, CellState::Ship), 20);
    let sizes = [4, 3, 3, 2, 2, 2, 1, 1, 1, 1];
    for i in 0..10 {
        let p = b.ship_positions(i);
        assert_eq!(p.len(), sizes[i]);
        assert!(!b.is_ship_sunken(i));
        let row = p.iter().all(|q| q.0 == p[0].0) && p.iter().enumerate().all(|(k, q)| q.1 == p[0].1 + k);
        let col = p.iter().all(|q| q.1 == p[0].1) && p.iter().enumerate().all(|(k, q)| q.0 == p[0].0 + k);
        assert!(row || col);
        for q in &p {
            assert!(q.0 < BOARD_SIZE && q.1 < BOARD_SIZE);
            assert_eq!(b.cell(q.0, q.1), CellState::Ship);
        }
    }
    for i in 0..10 {
        for j in 0..10 {
            if i == j {
                continue;
            }
            for p in b.ship_positions(i) {
                for q in b.ship_positions(j) {
                    let dr = (p.0 as i64 - q.0 as i64).abs();
                    let dc = (p.1 as i64 - q.1 as i64).abs();
                    assert!(dr.max(dc) > 1);
                }
            }
        }
    }
}

#[test]
fn full_fleet_layout() {
    for seed in 0..30u64 {
        let mut rng = StdRng::seed_from_u64(seed);
        let mut b = Board::new();
        assert_eq!(b.place_fleet(&mut rng), Ok(()));
        check_fleet(&b);
    }
}

#[test]
fn random_ship_lands_on_the_board() {
    let mut rng = StdRng::seed_from_u64(7);
    let mut b = Board::new();
    assert_eq!(b.place_ship(4, &mut rng), Ok(()));
    assert_eq!(b.ship_count(), 1);
    let p = b.ship_positions(0);
    assert_eq!(p.len(), 4);
    assert_eq!(count_cells(&b, CellState::Ship), 4);
}

#[test]
fn oversized_ship_fails_to_place() {
    let mut rng = StdRng::seed_from_u64(1);
    let mut b = Board::new();
    let r = b.place_ship(11, &mut rng);
    assert_eq!(r.map_err(|e| e.size), Err(11));
    assert_eq!(b.ship_count(), 0);
    assert_eq!(count_cells(&b, CellState::Empty), 100);
}

#[test]
fn fleet_sizes_in_order() {
    let sizes: Vec<usize> = (0..10).map(battleship::board::fleet_ship_size).collect();
    assert_eq!(sizes, vec![4, 3, 3, 2, 2, 2, 1, 1, 1, 1]);
}
