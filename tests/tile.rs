use minesweeper::app_state::AppState;
use minesweeper::text::{decimal_string, painted_decimal, Hue};
use minesweeper::tile::{Tile, TileState, TileType};

fn tile(kind: TileType, state: TileState) -> Tile {
    Tile { kind, state }
}

#[test]
fn default_tile_is_empty_and_hidden() {
    let t = Tile::default();
    assert_eq!(t, tile(TileType::Empty, TileState::Hidden));
}

#[test]
fn uncover_explodes_a_hidden_bomb() {
    let mut t = tile(TileType::Bomb, TileState::Hidden);
    t.uncover();
    assert_eq!(t.state, TileState::Exploded);
    assert_eq!(t.kind, TileType::Bomb);
}

#[test]
fn uncover_reveals_a_hidden_safe_cell() {
    let mut t = tile(TileType::Neighbour(2), TileState::Hidden);
    t.uncover();
    assert_eq!(t.state, TileState::Revealed);
    let mut e = tile(TileType::Empty, TileState::Hidden);
    e.uncover();
    assert_eq!(e.state, TileState::Revealed);
}

#[test]
fn uncover_leaves_flagged_and_revealed_cells() {
    let mut f = tile(TileType::Bomb, TileState::Flagged);
    f.uncover();
    assert_eq!(f.state, TileState::Flagged);
    let mut r = tile(TileType::Empty, TileState::Revealed);
    r.uncover();
    assert_eq!(r.state, TileState::Revealed);
}

#[test]
fn reveal_without_exploding_keeps_bombs_whole() {
    let mut t = tile(TileType::Bomb, TileState::Hidden);
    t.reveal_without_exploding();
    assert_eq!(t.state, TileState::Revealed);
    let mut f = tile(TileType::Empty, TileState::Flagged);
    f.reveal_without_exploding();
    assert_eq!(f.state, TileState::Flagged);
}

#[test]
fn toggle_flag_twice_restores_hidden() {
    let mut t = tile(TileType::Empty, TileState::Hidden);
    t.toggle_flag();
    assert_eq!(t.state, TileState::Flagged);
    t.toggle_flag();
    assert_eq!(t.state, TileState::Hidden);
}

#[test]
fn toggle_flag_ignores_revealed_and_exploded() {
    let mut r = tile(TileType::Empty, TileState::Revealed);
    r.toggle_flag();
    assert_eq!(r.state, TileState::Revealed);
    let mut x = tile(TileType::Bomb, TileState::Exploded);
    x.toggle_flag();
    assert_eq!(x.state, TileState::Exploded);
}

#[test]
fn kind_predicates() {
    assert!(TileType::Bomb.is_bomb());
    assert!(!TileType::Empty.is_bomb());
    assert!(TileType::Empty.is_empty());
    assert!(!TileType::Neighbour(1).is_empty());
    assert!(TileType::Neighbour(3).is_neighbour());
    assert!(!TileType::Bomb.is_neighbour());
    assert!(tile(TileType::Bomb, TileState::Hidden).is_bomb());
    assert!(tile(TileType::Empty, TileState::Revealed).is_empty());
}

/// Colouring is a process-wide setting of colored, so every case that sets
/// it stands in this one test.
#[test]
fn console_draw_with_and_without_colour() {
    colored::control::set_override(false);
    assert_eq!(TileType::Empty.console_draw(), " ");
    assert_eq!(TileType::Bomb.console_draw(), "*");
    assert_eq!(TileType::Neighbour(1).console_draw(), "1");
    assert_eq!(TileType::Neighbour(8).console_draw(), "8");
    assert_eq!(tile(TileType::Neighbour(4), TileState::Hidden).console_draw(), "4");

    colored::control::set_override(true);
    assert_eq!(TileType::Neighbour(1).console_draw(), "\x1b[36m1\x1b[0m");
    assert_eq!(TileType::Neighbour(2).console_draw(), "\x1b[32m2\x1b[0m");
    assert_eq!(TileType::Neighbour(3).console_draw(), "\x1b[33m3\x1b[0m");
    assert_eq!(TileType::Neighbour(7).console_draw(), "\x1b[31m7\x1b[0m");
    assert_eq!(TileType::Bomb.console_draw(), "*");
    assert_eq!(painted_decimal(42, Hue::Green), "\x1b[32m42\x1b[0m");
}

#[test]
fn decimal_notation() {
    assert_eq!(decimal_string(0), "0");
    assert_eq!(decimal_string(7), "7");
    assert_eq!(decimal_string(10), "10");
    assert_eq!(decimal_string(305), "305");
    assert_eq!(decimal_string(65535), "65535");
}

#[test]
fn app_state_default_is_main_menu() {
    assert_eq!(AppState::default(), AppState::MainMenu);
}
