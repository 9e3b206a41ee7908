use minesweeper::app_state::AppState;
use minesweeper::coordinates::Coordinates;
use minesweeper::tile::{TileState, TileType};
use minesweeper::tile_map::{BoardError, RevealResult, TileMap};

fn at(x: u16, y: u16) -> Coordinates {
    Coordinates::new(x, y)
}

fn board_with(width: u16, height: u16, bombs: &[(u16, u16)]) -> TileMap {
    let mut map = TileMap::empty(width, height).unwrap();
    let list: Vec<Coordinates> = bombs.iter().map(|&(x, y)| at(x, y)).collect();
    map.set_bombs_at(&list).unwrap();
    map
}

fn kind(map: &TileMap, x: u16, y: u16) -> TileType {
    map.get_tile_at_coords(at(x, y)).unwrap().kind
}

fn state(map: &TileMap, x: u16, y: u16) -> TileState {
    map.get_tile_at_coords(at(x, y)).unwrap().state
}

fn kinds(map: &TileMap) -> Vec<TileType> {
    let mut v = Vec::new();
    for y in 0..map.height() {
        for x in 0..map.width() {
            v.push(kind(map, x, y));
        }
    }
    v
}

fn brute_force_count(map: &TileMap, x: u16, y: u16) -> u8 {
    let mut n = 0;
    for dy in -1i32..=1 {
        for dx in -1i32..=1 {
            if dx == 0 && dy == 0 {
                continue;
            }
            let (nx, ny) = (x as i32 + dx, y as i32 + dy);
            if nx < 0 || ny < 0 || nx >= map.width() as i32 || ny >= map.height() as i32 {
                continue;
            }
            if kind(map, nx as u16, ny as u16) == TileType::Bomb {
                n += 1;
            }
        }
    }
    n
}

fn sorted(mut v: Vec<Coordinates>) -> Vec<(u16, u16)> {
    let mut out: Vec<(u16, u16)> = v.drain(..).map(|c| (c.x, c.y)).collect();
    out.sort();
    out
}

#[test]
fn empty_board_is_all_empty_and_hidden() {
    let map = TileMap::empty(4, 3).unwrap();
    assert_eq!(map.width(), 4);
    assert_eq!(map.height(), 3);
    assert_eq!(map.bomb_count(), 0);
    for y in 0..3 {
        for x in 0..4 {
            assert_eq!(kind(&map, x, y), TileType::Empty);
            assert_eq!(state(&map, x, y), TileState::Hidden);
        }
    }
}

#[test]
fn empty_rejects_a_zero_dimension() {
    assert_eq!(TileMap::empty(0, 3).err(), Some(BoardError::EmptyDimension));
    assert_eq!(TileMap::empty(3, 0).err(), Some(BoardError::EmptyDimension));
}

#[test]
fn create_session_rejects_bad_settings() {
    assert_eq!(TileMap::create_session(0, 5, 1).err(), Some(BoardError::EmptyDimension));
    assert_eq!(TileMap::create_session(2, 2, 4).err(), Some(BoardError::TooManyBombs));
    assert_eq!(TileMap::create_session(2, 2, 9).err(), Some(BoardError::TooManyBombs));
}

#[test]
fn set_bombs_refuses_as_many_mines_as_cells() {
    let mut map = TileMap::empty(3, 3).unwrap();
    assert_eq!(map.set_bombs(9), Err(BoardError::TooManyBombs));
    assert_eq!(map.bomb_count(), 0);
    assert!(kinds(&map).iter().all(|k| *k == TileType::Empty));
}

#[test]
fn random_placement_has_exact_count_and_true_neighbour_counts() {
    for &(w, h, k) in &[(1u16, 1u16, 0u16), (3, 3, 8), (9, 9, 10), (16, 16, 40), (30, 16, 99), (5, 4, 19)] {
        let map = TileMap::create_session(w, h, k).unwrap();
        assert_eq!(map.bomb_count(), k);
        let bombs = kinds(&map).iter().filter(|t| **t == TileType::Bomb).count();
        assert_eq!(bombs, k as usize);
        for y in 0..h {
            for x in 0..w {
                let c = kind(&map, x, y);
                if c == TileType::Bomb {
                    continue;
                }
                let n = brute_force_count(&map, x, y);
                if n == 0 {
                    assert_eq!(c, TileType::Empty);
                } else {
                    assert_eq!(c, TileType::Neighbour(n));
                }
                assert_eq!(map.bomb_count_at(at(x, y)), n);
                assert_eq!(state(&map, x, y), TileState::Hidden);
            }
        }
    }
}

#[test]
fn one_by_one_board_without_mines_is_won_on_reveal() {
    let mut map = TileMap::create_session(1, 1, 0).unwrap();
    assert_eq!(kind(&map, 0, 0), TileType::Empty);
    let (result, revealed) = map.reveal_at(at(0, 0));
    assert_eq!(result, RevealResult::Safe);
    assert_eq!(sorted(revealed), vec![(0, 0)]);
    assert_eq!(state(&map, 0, 0), TileState::Revealed);
    assert!(map.has_won());
    assert!(!map.has_lost());
}

#[test]
fn single_centre_mine_numbers_every_other_cell_one() {
    let map = board_with(3, 3, &[(1, 1)]);
    assert_eq!(map.bomb_count(), 1);
    for y in 0..3 {
        for x in 0..3 {
            if (x, y) == (1, 1) {
                assert_eq!(kind(&map, x, y), TileType::Bomb);
            } else {
                assert_eq!(kind(&map, x, y), TileType::Neighbour(1));
            }
        }
    }
}

#[test]
fn corner_mine_on_two_by_two_board() {
    let mut map = board_with(2, 2, &[(0, 0)]);
    assert_eq!(kind(&map, 1, 1), TileType::Neighbour(1));
    let (result, revealed) = map.reveal_at(at(1, 1));
    assert_eq!(result, RevealResult::Safe);
    // (1, 1) is numbered, so no cascade follows: it is uncovered alone.
    assert_eq!(sorted(revealed), vec![(1, 1)]);
    assert_eq!(state(&map, 1, 1), TileState::Revealed);
    assert_eq!(state(&map, 0, 0), TileState::Hidden);
    assert_eq!(state(&map, 0, 1), TileState::Hidden);
    assert!(!map.has_won());
    map.reveal_at(at(0, 1));
    map.reveal_at(at(1, 0));
    assert_eq!(state(&map, 0, 0), TileState::Hidden);
    assert!(map.has_won());
    assert!(!map.has_lost());
}

#[test]
fn revealing_a_mine_loses_even_with_the_rest_uncovered() {
    let mut map = board_with(2, 2, &[(0, 0)]);
    map.reveal_at(at(1, 1));
    map.reveal_at(at(0, 1));
    map.reveal_at(at(1, 0));
    let (result, revealed) = map.reveal_at(at(0, 0));
    assert_eq!(result, RevealResult::Mine);
    assert_eq!(sorted(revealed), vec![(0, 0)]);
    assert_eq!(state(&map, 0, 0), TileState::Exploded);
    assert!(map.has_lost());
    assert!(!map.has_won());
}

#[test]
fn chord_returns_an_unflagged_neighbouring_mine() {
    let mut map = board_with(3, 3, &[(0, 0)]);
    map.reveal_at(at(1, 1));
    assert_eq!(state(&map, 1, 1), TileState::Revealed);
    let result = map.reveal_neighbors(at(1, 1));
    assert!(result.contains(&at(0, 0)));
    let mines: Vec<Coordinates> =
        result.iter().copied().filter(|c| kind(&map, c.x, c.y) == TileType::Bomb).collect();
    assert_eq!(sorted(mines), vec![(0, 0)]);
    // The mine itself is returned, not exploded.
    assert_eq!(state(&map, 0, 0), TileState::Hidden);
}

#[test]
fn chord_uncovers_neighbours_and_cascades_from_empty_ones() {
    // Mine at the top right of a 4 by 3 board; (0, 0) is empty.
    let mut map = board_with(4, 3, &[(3, 2)]);
    assert_eq!(kind(&map, 1, 1), TileType::Empty);
    let result = map.reveal_neighbors(at(0, 0));
    let all: Vec<(u16, u16)> =
        (0..3).flat_map(|y| (0..4).map(move |x| (x, y))).filter(|&c| c != (3, 2)).collect();
    let mut expected = all.clone();
    expected.sort();
    assert_eq!(sorted(result), expected);
    for (x, y) in all {
        assert_eq!(state(&map, x, y), TileState::Revealed);
    }
    assert_eq!(state(&map, 3, 2), TileState::Hidden);
    assert!(map.has_won());
}

#[test]
fn chord_off_the_board_does_nothing() {
    let mut map = board_with(3, 3, &[(0, 0)]);
    let result = map.reveal_neighbors(at(3, 1));
    assert!(result.is_empty());
    assert_eq!(state(&map, 2, 1), TileState::Hidden);
}

#[test]
fn chord_returns_flagged_mines_too() {
    let mut map = board_with(3, 3, &[(0, 0)]);
    map.toggle_flag_at(at(0, 0));
    let result = map.reveal_neighbors(at(1, 1));
    assert!(result.contains(&at(0, 0)));
    assert_eq!(state(&map, 0, 0), TileState::Flagged);
}

#[test]
fn flood_fill_stops_at_numbered_cells_and_never_crosses_mines() {
    // A wall of mines in column 2 splits a 5 by 3 board.
    let mut map = board_with(5, 3, &[(2, 0), (2, 1), (2, 2)]);
    assert_eq!(kind(&map, 0, 1), TileType::Empty);
    let (result, revealed) = map.reveal_at(at(0, 1));
    assert_eq!(result, RevealResult::Safe);
    assert_eq!(sorted(revealed), vec![(0, 0), (0, 1), (0, 2), (1, 0), (1, 1), (1, 2)]);
    for y in 0..3 {
        assert_eq!(state(&map, 3, y), TileState::Hidden);
        assert_eq!(state(&map, 4, y), TileState::Hidden);
        assert_eq!(state(&map, 2, y), TileState::Hidden);
    }
}

#[test]
fn flood_fill_includes_the_seed_and_skips_seen_cells() {
    let mut map = board_with(3, 3, &[]);
    let mut revealed = vec![at(2, 2)];
    map.reveal_empty_neighbors(at(0, 0), &mut revealed);
    assert_eq!(revealed[0], at(2, 2));
    assert_eq!(revealed.len(), 9);
    assert!(revealed.contains(&at(0, 0)));
    // A cell that counted as seen is not uncovered.
    assert_eq!(state(&map, 2, 2), TileState::Hidden);
    assert_eq!(state(&map, 1, 1), TileState::Revealed);
}

#[test]
fn flood_fill_from_a_mine_or_off_the_board_does_nothing() {
    let mut map = board_with(3, 3, &[(1, 1)]);
    let mut revealed = Vec::new();
    map.reveal_empty_neighbors(at(1, 1), &mut revealed);
    assert!(revealed.is_empty());
    map.reveal_empty_neighbors(at(7, 7), &mut revealed);
    assert!(revealed.is_empty());
    assert_eq!(state(&map, 0, 0), TileState::Hidden);
}

#[test]
fn reveal_never_changes_kinds() {
    let mut map = board_with(6, 5, &[(0, 0), (5, 4), (3, 2)]);
    let before = kinds(&map);
    map.reveal_at(at(0, 4));
    map.reveal_at(at(0, 0));
    map.reveal_neighbors(at(1, 1));
    map.toggle_flag_at(at(5, 4));
    map.reveal_all();
    assert_eq!(kinds(&map), before);
}

#[test]
fn reveal_ignores_cells_that_are_not_hidden_and_off_board() {
    let mut map = board_with(3, 3, &[(0, 0)]);
    map.toggle_flag_at(at(0, 0));
    let (r, v) = map.reveal_at(at(0, 0));
    assert_eq!(r, RevealResult::Unchanged);
    assert!(v.is_empty());
    assert_eq!(state(&map, 0, 0), TileState::Flagged);
    let (r, v) = map.reveal_at(at(3, 0));
    assert_eq!(r, RevealResult::Unchanged);
    assert!(v.is_empty());
}

#[test]
fn toggle_flag_at_twice_restores_the_board() {
    let mut map = board_with(3, 3, &[(1, 1)]);
    map.toggle_flag_at(at(2, 2));
    assert_eq!(state(&map, 2, 2), TileState::Flagged);
    map.toggle_flag_at(at(2, 2));
    assert_eq!(state(&map, 2, 2), TileState::Hidden);
    map.reveal_at(at(0, 0));
    map.toggle_flag_at(at(0, 0));
    assert_eq!(state(&map, 0, 0), TileState::Revealed);
    map.toggle_flag_at(at(9, 9));
}

#[test]
fn lost_stays_lost() {
    let mut map = board_with(3, 3, &[(1, 1)]);
    map.reveal_at(at(1, 1));
    assert!(map.has_lost());
    map.toggle_flag_at(at(1, 1));
    map.reveal_at(at(0, 0));
    map.reveal_neighbors(at(0, 0));
    map.reveal_all();
    assert!(map.has_lost());
    assert_eq!(state(&map, 1, 1), TileState::Exploded);
}

#[test]
fn reveal_all_uncovers_hidden_cells_without_exploding() {
    let mut map = board_with(3, 2, &[(0, 0)]);
    map.toggle_flag_at(at(2, 1));
    map.reveal_all();
    assert_eq!(state(&map, 0, 0), TileState::Revealed);
    assert_eq!(state(&map, 2, 1), TileState::Flagged);
    assert_eq!(state(&map, 1, 1), TileState::Revealed);
    assert!(!map.has_lost());
}

#[test]
fn flagged_mine_is_not_hidden_so_the_board_is_not_won() {
    let mut map = board_with(2, 1, &[(0, 0)]);
    map.reveal_at(at(1, 0));
    assert!(map.has_won());
    map.toggle_flag_at(at(0, 0));
    assert!(!map.has_won());
}

#[test]
fn set_bombs_at_takes_a_repeated_cell_once() {
    let map = board_with(3, 3, &[(0, 0), (0, 0), (2, 2)]);
    assert_eq!(map.bomb_count(), 2);
    assert_eq!(kind(&map, 1, 1), TileType::Neighbour(2));
}

#[test]
fn set_bombs_at_refuses_cells_off_the_board() {
    let mut map = TileMap::empty(3, 3).unwrap();
    let r = map.set_bombs_at(&vec![at(0, 0), at(3, 0)]);
    assert_eq!(r, Err(BoardError::BombOutOfBounds));
    assert!(kinds(&map).iter().all(|k| *k == TileType::Empty));
}

#[test]
fn set_bombs_at_refuses_a_full_board() {
    let mut map = TileMap::empty(2, 1).unwrap();
    let r = map.set_bombs_at(&vec![at(0, 0), at(1, 0)]);
    assert_eq!(r, Err(BoardError::TooManyBombs));
    assert_eq!(map.bomb_count(), 0);
}

#[test]
fn accessors_treat_off_board_positions_as_nothing() {
    let map = board_with(3, 2, &[(2, 1)]);
    assert!(map.get_tile_at_coords(at(3, 0)).is_none());
    assert!(map.at(at(0, 2)).is_none());
    assert_eq!(map.at(at(2, 1)).unwrap().kind, TileType::Bomb);
    assert!(map.is_bomb_at(at(2, 1)));
    assert!(!map.is_bomb_at(at(5, 5)));
    assert_eq!(map.bomb_count_at(at(5, 5)), 0);
    assert_eq!(map.bomb_count_at(at(2, 1)), 0);
    assert_eq!(map.bomb_count_at(at(1, 0)), 1);
    assert!(map.coords_in_bounds(at(2, 1)));
    assert!(!map.coords_in_bounds(at(2, 2)));
}

#[test]
fn scan_map_at_lists_neighbours_on_the_board() {
    let map = TileMap::empty(3, 3).unwrap();
    assert_eq!(sorted(map.scan_map_at(at(0, 0))), vec![(0, 1), (1, 0), (1, 1)]);
    assert_eq!(map.scan_map_at(at(1, 1)).len(), 8);
    assert_eq!(sorted(map.scan_map_at(at(2, 1))), vec![(1, 0), (1, 1), (1, 2), (2, 0), (2, 2)]);
}

#[test]
fn offset_rejects_leaving_the_u16_range() {
    assert_eq!(at(0, 5).offset(-1, 0), None);
    assert_eq!(at(3, 65535).offset(0, 1), None);
    assert_eq!(at(3, 4).offset(-1, 1), Some(at(2, 5)));
}

#[test]
fn console_output_draws_the_board_top_row_first() {
    colored::control::set_override(false);
    let map = board_with(3, 2, &[(0, 0)]);
    let expected = "Map (3, 2) with 1 bombs:\n-----\n|11 |\n|*1 |\n-----";
    assert_eq!(map.console_output(), expected);
}

#[test]
fn app_state_after_move() {
    let mut map = board_with(2, 1, &[(0, 0)]);
    assert_eq!(AppState::InGame.after_move(&map), AppState::InGame);
    assert_eq!(AppState::MainMenu.after_move(&map), AppState::MainMenu);
    map.reveal_at(at(1, 0));
    assert_eq!(AppState::InGame.after_move(&map), AppState::Victory);
    let mut lost = board_with(2, 1, &[(0, 0)]);
    lost.reveal_at(at(0, 0));
    assert_eq!(AppState::InGame.after_move(&lost), AppState::Defeat);
    assert_eq!(AppState::Victory.after_move(&lost), AppState::Victory);
}

#[test]
fn left_click_chord_sets_off_an_unflagged_mine() {
    let mut map = board_with(3, 3, &[(0, 0)]);
    let taken = map.left_click_tile(at(1, 1));
    assert_eq!(sorted(taken), vec![(1, 1)]);
    assert_eq!(state(&map, 1, 1), TileState::Revealed);
    let taken = map.left_click_tile(at(1, 1));
    assert!(taken.contains(&at(0, 0)));
    assert_eq!(state(&map, 0, 0), TileState::Exploded);
    assert!(map.has_lost());
}

#[test]
fn left_click_chord_spares_a_flagged_mine() {
    let mut map = board_with(3, 3, &[(0, 0)]);
    map.left_click_tile(at(1, 1));
    map.toggle_flag_at(at(0, 0));
    let taken = map.left_click_tile(at(1, 1));
    assert!(taken.contains(&at(0, 0)));
    assert_eq!(state(&map, 0, 0), TileState::Flagged);
    assert!(!map.has_lost());
    assert_eq!(state(&map, 2, 2), TileState::Revealed);
}

#[test]
fn left_click_ignores_flagged_cells_and_off_board() {
    let mut map = board_with(3, 3, &[(0, 0)]);
    map.toggle_flag_at(at(2, 2));
    assert!(map.left_click_tile(at(2, 2)).is_empty());
    assert_eq!(state(&map, 2, 2), TileState::Flagged);
    assert!(map.left_click_tile(at(3, 3)).is_empty());
}

#[test]
fn left_click_on_a_hidden_empty_cell_cascades() {
    let mut map = board_with(3, 3, &[(0, 0)]);
    let taken = map.left_click_tile(at(2, 2));
    assert_eq!(
        sorted(taken),
        vec![(0, 1), (0, 2), (1, 0), (1, 1), (1, 2), (2, 0), (2, 1), (2, 2)]
    );
    assert!(map.has_won());
}

#[test]
fn left_click_on_a_hidden_mine_explodes_it() {
    let mut map = board_with(3, 3, &[(0, 0)]);
    let taken = map.left_click_tile(at(0, 0));
    assert_eq!(sorted(taken), vec![(0, 0)]);
    assert_eq!(state(&map, 0, 0), TileState::Exploded);
    assert_eq!(AppState::InGame.after_move(&map), AppState::Defeat);
}
