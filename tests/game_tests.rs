use backwards::GameOfLife;
use std::collections::HashSet;

fn cells_of(game: &GameOfLife) -> HashSet<(i32, i32)> {
    game.living_cells.iter().cloned().collect()
}

#[test]
fn test_blinker_pattern() {
    let mut game = GameOfLife::new();
    game.add_cell(-1, 0);
    game.add_cell(0, 0);
    game.add_cell(1, 0);

    game.update();

    let expected_state: HashSet<(i32, i32)> = [(0, -1), (0, 0), (0, 1)].iter().cloned().collect();
    assert_eq!(cells_of(&game), expected_state);
}

#[test]
fn blinker_returns_after_two_updates() {
    let mut game = GameOfLife::new();
    game.add_cell(-1, 0);
    game.add_cell(0, 0);
    game.add_cell(1, 0);
    game.update();
    game.update();
    let expected: HashSet<(i32, i32)> = [(-1, 0), (0, 0), (1, 0)].iter().cloned().collect();
    assert_eq!(cells_of(&game), expected);
    assert_eq!(game.living_cells.len(), 3);
}

#[test]
fn block_is_still() {
    let mut game = GameOfLife::new();
    for &(x, y) in [(0, 0), (0, 1), (1, 0), (1, 1)].iter() {
        game.add_cell(x, y);
    }
    game.update();
    let expected: HashSet<(i32, i32)> = [(0, 0), (0, 1), (1, 0), (1, 1)].iter().cloned().collect();
    assert_eq!(cells_of(&game), expected);
}

#[test]
fn lone_cell_dies() {
    let mut game = GameOfLife::new();
    game.add_cell(7, -3);
    game.update();
    assert!(game.living_cells.is_empty());
}

#[test]
fn empty_board_stays_empty() {
    let mut game = GameOfLife::new();
    assert!(game.candidate_cells().is_empty());
    game.update();
    assert!(game.living_cells.is_empty());
}

#[test]
fn add_cell_is_idempotent() {
    let mut game = GameOfLife::new();
    game.add_cell(2, 3);
    game.add_cell(2, 3);
    assert_eq!(game.living_cells.len(), 1);
    assert!(game.is_alive(2, 3));
    assert!(!game.is_alive(3, 2));
}

#[test]
fn neighbor_counts() {
    let mut game = GameOfLife::new();
    for &(x, y) in [(0, -1), (0, 0), (0, 1), (1, -1), (1, 1)].iter() {
        game.add_cell(x, y);
    }
    assert_eq!(game.alive_neighbors_count(1, 0), 5);
    assert_eq!(game.alive_neighbors_count(0, 0), 4);
    assert_eq!(game.alive_neighbors_count(5, 5), 0);
    assert_eq!(game.alive_neighbors_count(-1, 0), 3);
}

#[test]
fn full_neighborhood_counts_eight() {
    let mut game = GameOfLife::new();
    for x in -1..=1 {
        for y in -1..=1 {
            game.add_cell(x, y);
        }
    }
    assert_eq!(game.alive_neighbors_count(0, 0), 8);
}

#[test]
fn candidates_of_one_cell() {
    let mut game = GameOfLife::new();
    game.add_cell(4, 4);
    let cands = game.candidate_cells();
    assert_eq!(cands.len(), 9);
    let set: HashSet<(i32, i32)> = cands.iter().cloned().collect();
    assert_eq!(set.len(), 9);
    for x in 3..=5 {
        for y in 3..=5 {
            assert!(set.contains(&(x, y)));
        }
    }
}

#[test]
fn candidates_overlap_listed_once() {
    let mut game = GameOfLife::new();
    game.add_cell(0, 0);
    game.add_cell(1, 0);
    let cands = game.candidate_cells();
    let set: HashSet<(i32, i32)> = cands.iter().cloned().collect();
    assert_eq!(cands.len(), 12);
    assert_eq!(set.len(), 12);
}

#[test]
fn grid_edge_is_dead() {
    let mut game = GameOfLife::new();
    game.add_cell(i32::MAX, i32::MAX);
    assert_eq!(game.candidate_cells().len(), 4);
    assert_eq!(game.alive_neighbors_count(i32::MAX, i32::MAX), 0);
    game.add_cell(i32::MAX - 1, i32::MAX);
    game.add_cell(i32::MAX, i32::MAX - 1);
    game.update();
    let expected: HashSet<(i32, i32)> = [
        (i32::MAX, i32::MAX),
        (i32::MAX - 1, i32::MAX),
        (i32::MAX, i32::MAX - 1),
        (i32::MAX - 1, i32::MAX - 1),
    ]
    .iter()
    .cloned()
    .collect();
    assert_eq!(cells_of(&game), expected);
}

#[test]
fn from_cells_drops_repeats() {
    let game = GameOfLife::from_cells(&vec![(1, 1), (2, 2), (1, 1)]);
    assert_eq!(game.living_cells.len(), 2);
    assert!(game.is_alive(1, 1));
    assert!(game.is_alive(2, 2));
}
