use rustsweeper::game::GameState;
use rustsweeper::pointer_handling::hover;
use rustsweeper::tile_states::{Tile, TileState};

fn tile(x: usize, y: usize, state: TileState) -> Tile {
    Tile { x, y, tile: state, surrounding_mines: 0 }
}

#[test]
fn reveal_hidden_mine_loses() {
    let mut t = TileState::HiddenMine;
    let state = t.reveal_tile(2);
    assert!(t == TileState::RevealedMine);
    assert!(state == GameState::Lose);
}

#[test]
fn reveal_hidden_blank_without_mines_around() {
    let mut t = TileState::HiddenBlank;
    let state = t.reveal_tile(0);
    assert!(t == TileState::RevealedBlank);
    assert!(state == GameState::Playing);
}

#[test]
fn reveal_hidden_blank_with_mines_around_shows_number() {
    let mut t = TileState::HiddenBlank;
    let state = t.reveal_tile(3);
    assert!(t == TileState::RevealedNumber(3));
    assert!(state == GameState::Playing);
}

#[test]
fn reveal_leaves_flagged_and_revealed_tiles() {
    for s in [
        TileState::FlaggedMine,
        TileState::FlaggedBlank,
        TileState::RevealedMine,
        TileState::RevealedBlank,
        TileState::RevealedNumber(4),
    ] {
        let mut t = s;
        let state = t.reveal_tile(1);
        assert!(t == s);
        assert!(state == GameState::Playing);
    }
}

#[test]
fn reveal_twice_is_reveal_once() {
    for s in [TileState::HiddenMine, TileState::HiddenBlank] {
        let mut t = s;
        t.reveal_tile(2);
        let once = t;
        t.reveal_tile(2);
        assert!(t == once);
    }
}

#[test]
fn predicates() {
    assert!(TileState::HiddenMine.is_mine());
    assert!(TileState::FlaggedMine.is_mine());
    assert!(TileState::RevealedMine.is_mine());
    assert!(!TileState::HiddenBlank.is_mine());
    assert!(!TileState::RevealedNumber(1).is_mine());
    assert!(TileState::RevealedBlank.is_revealed());
    assert!(TileState::RevealedNumber(2).is_revealed());
    assert!(TileState::RevealedMine.is_revealed());
    assert!(!TileState::FlaggedBlank.is_revealed());
    assert!(!TileState::HiddenMine.is_revealed());
    assert!(TileState::FlaggedBlank.is_flagged());
    assert!(TileState::FlaggedMine.is_flagged());
    assert!(!TileState::HiddenBlank.is_flagged());
    assert!(!TileState::RevealedBlank.is_flagged());
}

#[test]
fn toggle_flag_on_and_off() {
    let mut t = TileState::HiddenMine;
    t.toggle_flag();
    assert!(t == TileState::FlaggedMine);
    t.toggle_flag();
    assert!(t == TileState::HiddenMine);
    let mut b = TileState::HiddenBlank;
    b.toggle_flag();
    assert!(b == TileState::FlaggedBlank);
    b.toggle_flag();
    assert!(b == TileState::HiddenBlank);
}

#[test]
fn toggle_flag_twice_is_identity_and_keeps_mines() {
    for s in [
        TileState::HiddenMine,
        TileState::HiddenBlank,
        TileState::RevealedMine,
        TileState::RevealedBlank,
        TileState::FlaggedMine,
        TileState::FlaggedBlank,
        TileState::RevealedNumber(5),
    ] {
        let mut t = s;
        t.toggle_flag();
        assert_eq!(t.is_mine(), s.is_mine());
        assert_eq!(t.is_revealed(), s.is_revealed());
        t.toggle_flag();
        assert!(t == s);
    }
}

#[test]
fn toggle_flag_leaves_revealed_tiles() {
    let mut t = TileState::RevealedNumber(2);
    t.toggle_flag();
    assert!(t == TileState::RevealedNumber(2));
}

#[test]
fn colors_of_covered_tiles_alternate() {
    assert_eq!(tile(0, 0, TileState::HiddenBlank).get_color(), "#aad751");
    assert_eq!(tile(1, 0, TileState::HiddenMine).get_color(), "#a2d149");
    assert_eq!(tile(0, 1, TileState::FlaggedBlank).get_color(), "#a2d149");
    assert_eq!(tile(1, 1, TileState::FlaggedMine).get_color(), "#aad751");
}

#[test]
fn colors_of_uncovered_tiles() {
    assert_eq!(tile(2, 4, TileState::RevealedBlank).get_color(), "#e5c29f");
    assert_eq!(tile(2, 3, TileState::RevealedNumber(1)).get_color(), "#d7b899");
    assert_eq!(tile(5, 3, TileState::RevealedMine).get_color(), "#ff0000");
    assert_eq!(tile(4, 3, TileState::RevealedMine).get_color(), "#ff0000");
}

#[test]
fn hover_highlights_covered_and_numbered_tiles() {
    assert!(hover(&tile(0, 0, TileState::HiddenBlank)));
    assert!(hover(&tile(0, 0, TileState::FlaggedMine)));
    assert!(hover(&tile(0, 0, TileState::RevealedNumber(2))));
    assert!(!hover(&tile(0, 0, TileState::RevealedBlank)));
    assert!(!hover(&tile(0, 0, TileState::RevealedMine)));
}
