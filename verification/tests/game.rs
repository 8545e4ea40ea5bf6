use rustsweeper::game::{max, tile_positions, win_check, EndScreen, GameState, GameValues};
use rustsweeper::init::board_from_states;
use rustsweeper::pointer_handling::{click, ClickAction, PointerButton};
use rustsweeper::tile_states::TileState::{self, HiddenBlank, HiddenMine};

fn values(state: GameState, remaining_blanks: i32) -> GameValues {
    GameValues { state, remaining_blanks, tile_size: 40 }
}

#[test]
fn max_picks_the_larger() {
    assert_eq!(max(3, 7), 7);
    assert_eq!(max(9, 2), 9);
    assert_eq!(max(5, 5), 5);
}

#[test]
fn default_values() {
    let v = GameValues::default();
    assert!(v.state == GameState::Initializing);
    assert_eq!(v.remaining_blanks, 0);
    assert!(GameState::default() == GameState::Initializing);
}

#[test]
fn win_check_lose_goes_to_end_with_lose_screen() {
    let mut v = values(GameState::Lose, 5);
    assert!(win_check(&mut v) == EndScreen::Lose);
    assert!(v.state == GameState::End);
    assert_eq!(v.remaining_blanks, 5);
}

#[test]
fn win_check_playing_with_blanks_left_keeps_playing() {
    let mut v = values(GameState::Playing, 1);
    assert!(win_check(&mut v) == EndScreen::Nothing);
    assert!(v.state == GameState::Playing);
}

#[test]
fn win_check_playing_without_blanks_wins() {
    let mut v = values(GameState::Playing, 0);
    assert!(win_check(&mut v) == EndScreen::Nothing);
    assert!(v.state == GameState::Win);
    let mut w = values(GameState::Playing, -3);
    win_check(&mut w);
    assert!(w.state == GameState::Win);
}

#[test]
fn win_check_win_goes_to_end_with_win_screen() {
    let mut v = values(GameState::Win, 0);
    assert!(win_check(&mut v) == EndScreen::Win);
    assert!(v.state == GameState::End);
}

#[test]
fn win_check_end_and_initializing_stay() {
    let mut v = values(GameState::End, 0);
    assert!(win_check(&mut v) == EndScreen::Nothing);
    assert!(v.state == GameState::End);
    let mut i = values(GameState::Initializing, 0);
    assert!(win_check(&mut i) == EndScreen::Nothing);
    assert!(i.state == GameState::Initializing);
}

#[test]
fn click_in_play() {
    let v = values(GameState::Playing, 3);
    assert!(click(&v, PointerButton::Primary) == ClickAction::Reveal);
    assert!(click(&v, PointerButton::Secondary) == ClickAction::Flag);
    assert!(click(&v, PointerButton::Middle) == ClickAction::Ignore);
}

#[test]
fn click_outside_play_is_ignored() {
    for s in [GameState::Initializing, GameState::Win, GameState::Lose, GameState::End] {
        let v = values(s, 3);
        assert!(click(&v, PointerButton::Primary) == ClickAction::Ignore);
        assert!(click(&v, PointerButton::Secondary) == ClickAction::Ignore);
    }
}

#[test]
fn tile_positions_lists_mines_and_blanks_in_order() {
    let states: Vec<Vec<TileState>> = vec![
        vec![HiddenMine, HiddenBlank],
        vec![HiddenBlank, TileState::FlaggedMine],
        vec![TileState::RevealedBlank, HiddenMine],
    ];
    let board = board_from_states(&states, 3, 2);
    assert_eq!(tile_positions(&board, true), vec![(0, 0), (1, 1), (2, 1)]);
    assert_eq!(tile_positions(&board, false), vec![(0, 1), (1, 0), (2, 0)]);
}
