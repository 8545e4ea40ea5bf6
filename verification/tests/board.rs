use rustsweeper::board::Board;
use rustsweeper::game::{tile_positions, win_check, GameState, GameValues};
use rustsweeper::init::{
    board_from_states, count_mine_sites, generate_mines, initialize_tiles, mine_capacity, place_mine, setup,
};
use rustsweeper::pointer_handling::{flag, reveal_tiles};
use rustsweeper::reset::{generate_surrounding_mines, reset_game};
use rustsweeper::tile_states::TileState::{self, FlaggedBlank, HiddenBlank, HiddenMine};

fn blank_states(w: usize, h: usize) -> Vec<Vec<TileState>> {
    vec![vec![HiddenBlank; h]; w]
}

fn board_of(states: &Vec<Vec<TileState>>) -> Board {
    board_from_states(states, states.len(), states[0].len())
}

fn playing(remaining_blanks: i32) -> GameValues {
    GameValues { state: GameState::Playing, remaining_blanks, tile_size: 50 }
}

fn count_where(board: &Board, f: impl Fn(TileState) -> bool) -> usize {
    let mut n = 0;
    for x in 0..board.width() {
        for y in 0..board.height() {
            if f(board.tile(x, y).tile) {
                n += 1;
            }
        }
    }
    n
}

fn mines_around(board: &Board, x: usize, y: usize) -> u8 {
    let mut n = 0;
    for a in x.saturating_sub(1)..=x + 1 {
        for b in y.saturating_sub(1)..=y + 1 {
            if a < board.width() && b < board.height() && board.tile(a, b).tile.is_mine() {
                n += 1;
            }
        }
    }
    n
}

#[test]
fn initialize_counts_the_block_including_the_tile_itself() {
    let mut states = blank_states(3, 3);
    states[1][1] = HiddenMine;
    let board = board_of(&states);
    assert_eq!(board.width(), 3);
    assert_eq!(board.height(), 3);
    for x in 0..3 {
        for y in 0..3 {
            let t = board.tile(x, y);
            assert_eq!(t.x, x);
            assert_eq!(t.y, y);
            assert_eq!(t.surrounding_mines, 1);
        }
    }
}

#[test]
fn initialize_counts_at_edges() {
    let mut states = blank_states(4, 3);
    states[0][0] = HiddenMine;
    states[1][0] = HiddenMine;
    states[3][2] = HiddenMine;
    let board = board_of(&states);
    assert_eq!(board.tile(0, 0).surrounding_mines, 2);
    assert_eq!(board.tile(0, 1).surrounding_mines, 2);
    assert_eq!(board.tile(2, 0).surrounding_mines, 1);
    assert_eq!(board.tile(2, 1).surrounding_mines, 2);
    assert_eq!(board.tile(3, 2).surrounding_mines, 1);
    assert_eq!(board.tile(0, 2).surrounding_mines, 0);
}

#[test]
fn generate_surrounding_mines_recomputes_counts() {
    let mut states = blank_states(3, 2);
    states[2][1] = HiddenMine;
    let mut grid = initialize_tiles(&states);
    grid[0][0].surrounding_mines = 7;
    grid[1][0].surrounding_mines = 0;
    generate_surrounding_mines(&mut grid);
    assert_eq!(grid[1][0].surrounding_mines, 1);
    assert_eq!(grid[0][0].surrounding_mines, 0);
    assert!(grid[2][1].tile == HiddenMine);
}

#[test]
fn initialize_tiles_on_columns_of_different_lengths() {
    let states: Vec<Vec<TileState>> = vec![
        vec![HiddenMine, HiddenBlank, HiddenBlank],
        vec![HiddenBlank],
        vec![],
        vec![HiddenBlank, HiddenMine],
    ];
    let grid = initialize_tiles(&states);
    assert_eq!(grid.len(), 4);
    assert_eq!(grid[0].len(), 3);
    assert_eq!(grid[1].len(), 1);
    assert_eq!(grid[2].len(), 0);
    assert_eq!(grid[3].len(), 2);
    assert_eq!(grid[0][0].surrounding_mines, 1);
    assert_eq!(grid[0][1].surrounding_mines, 1);
    assert_eq!(grid[0][2].surrounding_mines, 0);
    assert_eq!(grid[1][0].surrounding_mines, 1);
    assert_eq!(grid[3][0].surrounding_mines, 1);
    assert_eq!(grid[3][1].surrounding_mines, 1);
    assert_eq!((grid[3][1].x, grid[3][1].y), (3, 1));
    assert!(grid[3][1].tile == HiddenMine);
}

#[test]
fn recount_after_initialize_changes_nothing() {
    let states: Vec<Vec<TileState>> = vec![
        vec![HiddenMine, HiddenBlank],
        vec![HiddenBlank, HiddenBlank, HiddenMine],
        vec![HiddenMine],
    ];
    let grid = initialize_tiles(&states);
    let mut again = grid.clone();
    generate_surrounding_mines(&mut again);
    for x in 0..grid.len() {
        for y in 0..grid[x].len() {
            assert_eq!(again[x][y].surrounding_mines, grid[x][y].surrounding_mines);
        }
    }
    assert_eq!(grid[1][1].surrounding_mines, 3);
}

#[test]
fn mine_capacity_leaves_out_the_safe_corner() {
    assert_eq!(mine_capacity(10, 8), 76);
    assert_eq!(mine_capacity(1, 1), 0);
    assert_eq!(mine_capacity(3, 1), 1);
    assert_eq!(mine_capacity(2, 2), 0);
    assert_eq!(mine_capacity(0, 5), 0);
    let board = board_from_states(&blank_states(5, 4), 5, 4);
    assert_eq!(count_mine_sites(&board), mine_capacity(5, 4));
}

#[test]
fn place_mine_picks_the_chosen_site_column_by_column() {
    let mut board = board_from_states(&blank_states(3, 3), 3, 3);
    // sites: column 0 only row 0, column 1 only row 0, column 2 all rows
    assert_eq!(count_mine_sites(&board), 5);
    assert_eq!(place_mine(&mut board, 0), (0, 0));
    assert!(board.tile(0, 0).tile == HiddenMine);
    assert_eq!(place_mine(&mut board, 0), (1, 0));
    assert_eq!(place_mine(&mut board, 2), (2, 2));
    assert_eq!(count_mine_sites(&board), 2);
    assert_eq!(place_mine(&mut board, 1), (2, 1));
}

#[test]
fn generate_mines_places_exactly_the_count_outside_the_corner() {
    for _ in 0..20 {
        let mut board = board_from_states(&blank_states(6, 5), 6, 5);
        generate_mines(&mut board, 12);
        assert_eq!(count_where(&board, |t| t.is_mine()), 12);
        for x in 0..2 {
            for y in 3..5 {
                assert!(board.tile(x, y).tile == HiddenBlank);
            }
        }
    }
}

#[test]
fn generate_mines_can_fill_every_site() {
    let mut board = board_from_states(&blank_states(4, 4), 4, 4);
    let cap = mine_capacity(4, 4);
    generate_mines(&mut board, cap);
    assert_eq!(count_where(&board, |t| t.is_mine()), 12);
    assert_eq!(count_mine_sites(&board), 0);
}

#[test]
fn setup_starts_a_consistent_game() {
    let mut values = GameValues::default();
    let board = setup(&mut values, 9, 7, 10);
    assert_eq!(values.remaining_blanks, 53);
    assert!(values.state == GameState::Initializing);
    assert_eq!(count_where(&board, |t| t.is_mine()), 10);
    assert_eq!(count_where(&board, |t| !t.is_mine() && !t.is_revealed()), 53);
    for x in 0..9 {
        for y in 0..7 {
            assert_eq!(board.tile(x, y).surrounding_mines, mines_around(&board, x, y));
        }
    }
}

#[test]
fn reset_game_covers_everything_and_starts_play() {
    let mut values = GameValues::default();
    let mut board = setup(&mut values, 5, 5, 4);
    reveal_tiles(&mut board, &mut values, 0, 4);
    flag(&mut board, 4, 0);
    values.state = GameState::Lose;
    reset_game(&mut values, &mut board, 6);
    assert!(values.state == GameState::Playing);
    assert_eq!(values.remaining_blanks, 19);
    assert_eq!(count_where(&board, |t| t.is_mine()), 6);
    assert_eq!(count_where(&board, |t| t.is_revealed() || t.is_flagged()), 0);
    for x in 0..5 {
        for y in 0..5 {
            assert_eq!(board.tile(x, y).surrounding_mines, mines_around(&board, x, y));
        }
    }
}

#[test]
fn reveal_cascades_over_tiles_without_mines_around() {
    let mut states = blank_states(4, 4);
    states[3][3] = HiddenMine;
    let mut board = board_of(&states);
    let mut values = playing(15);
    let revealed = reveal_tiles(&mut board, &mut values, 0, 0);
    assert_eq!(revealed.len(), 15);
    assert_eq!(values.remaining_blanks, 0);
    assert!(values.state == GameState::Playing);
    assert!(board.tile(3, 3).tile == HiddenMine);
    assert!(board.tile(0, 0).tile == TileState::RevealedBlank);
    assert!(board.tile(2, 2).tile == TileState::RevealedNumber(1));
    let mut seen = revealed.clone();
    seen.sort();
    seen.dedup();
    assert_eq!(seen.len(), 15);
    assert!(win_check(&mut values) == rustsweeper::game::EndScreen::Nothing);
    assert!(values.state == GameState::Win);
}

#[test]
fn reveal_on_a_number_uncovers_only_that_tile() {
    let mut states = blank_states(3, 3);
    states[2][2] = HiddenMine;
    let mut board = board_of(&states);
    let mut values = playing(8);
    let revealed = reveal_tiles(&mut board, &mut values, 1, 1);
    assert_eq!(revealed, vec![(1, 1)]);
    assert!(board.tile(1, 1).tile == TileState::RevealedNumber(1));
    assert_eq!(values.remaining_blanks, 7);
}

#[test]
fn reveal_on_a_mine_loses() {
    let mut states = blank_states(3, 3);
    states[0][0] = HiddenMine;
    let mut board = board_of(&states);
    let mut values = playing(8);
    let revealed = reveal_tiles(&mut board, &mut values, 0, 0);
    assert_eq!(revealed, vec![(0, 0)]);
    assert!(values.state == GameState::Lose);
    assert_eq!(values.remaining_blanks, 8);
    assert!(board.tile(0, 0).tile == TileState::RevealedMine);
}

#[test]
fn reveal_after_losing_keeps_the_state() {
    let mut states = blank_states(3, 3);
    states[0][0] = HiddenMine;
    let mut board = board_of(&states);
    for s in [GameState::Lose, GameState::End] {
        let mut b = board_of(&states);
        let mut values = GameValues { state: s, remaining_blanks: 8, tile_size: 1 };
        reveal_tiles(&mut b, &mut values, 2, 2);
        assert!(values.state == s);
        assert_eq!(values.remaining_blanks, 0);
    }
    let mut values = GameValues { state: GameState::Initializing, remaining_blanks: 8, tile_size: 1 };
    reveal_tiles(&mut board, &mut values, 2, 2);
    assert!(values.state == GameState::Playing);
}

#[test]
fn flags_stop_the_cascade() {
    let mut states = blank_states(4, 1);
    states[2][0] = FlaggedBlank;
    let mut board = board_of(&states);
    let mut values = playing(4);
    let revealed = reveal_tiles(&mut board, &mut values, 0, 0);
    assert_eq!(revealed, vec![(0, 0), (1, 0)]);
    assert!(board.tile(2, 0).tile == FlaggedBlank);
    assert!(board.tile(3, 0).tile == HiddenBlank);
    assert_eq!(values.remaining_blanks, 2);
}

#[test]
fn reveal_on_a_flag_does_nothing() {
    let mut board = board_from_states(&blank_states(2, 2), 2, 2);
    assert!(flag(&mut board, 1, 1));
    let mut values = playing(4);
    let revealed = reveal_tiles(&mut board, &mut values, 1, 1);
    assert!(revealed.is_empty());
    assert!(board.tile(1, 1).tile == FlaggedBlank);
    assert_eq!(values.remaining_blanks, 4);
    assert!(!flag(&mut board, 1, 1));
    assert!(board.tile(1, 1).tile == HiddenBlank);
}

#[test]
fn reveal_twice_changes_nothing_more() {
    let mut states = blank_states(5, 5);
    states[4][4] = HiddenMine;
    states[2][0] = HiddenMine;
    let mut board = board_of(&states);
    let mut values = playing(23);
    let first = reveal_tiles(&mut board, &mut values, 0, 4);
    assert!(!first.is_empty());
    let remaining = values.remaining_blanks;
    let second = reveal_tiles(&mut board, &mut values, 0, 4);
    assert!(second.is_empty());
    assert_eq!(values.remaining_blanks, remaining);
}

#[test]
fn revealing_in_the_safe_corner_never_loses() {
    for _ in 0..30 {
        let mut values = GameValues::default();
        let mut board = setup(&mut values, 8, 6, 20);
        values.state = GameState::Playing;
        reveal_tiles(&mut board, &mut values, 0, 5);
        assert!(values.state == GameState::Playing);
        reveal_tiles(&mut board, &mut values, 1, 4);
        assert!(values.state == GameState::Playing);
    }
}

#[test]
fn remaining_blanks_follow_the_covered_blanks() {
    let mut values = GameValues::default();
    let mut board = setup(&mut values, 7, 7, 9);
    values.state = GameState::Playing;
    for (x, y) in tile_positions(&board, false) {
        reveal_tiles(&mut board, &mut values, x, y);
        let covered = count_where(&board, |t| !t.is_mine() && !t.is_revealed());
        assert_eq!(values.remaining_blanks as usize, covered);
        assert!(values.state == GameState::Playing);
    }
    assert_eq!(values.remaining_blanks, 0);
    win_check(&mut values);
    assert!(values.state == GameState::Win);
}

#[test]
fn uncovering_the_mines_after_a_loss() {
    let mut states = blank_states(3, 3);
    states[0][2] = HiddenMine;
    states[2][0] = HiddenMine;
    let mut board = board_of(&states);
    let mut values = playing(7);
    reveal_tiles(&mut board, &mut values, 0, 2);
    assert!(values.state == GameState::Lose);
    win_check(&mut values);
    assert!(values.state == GameState::End);
    for (x, y) in tile_positions(&board, true) {
        reveal_tiles(&mut board, &mut values, x, y);
    }
    assert!(values.state == GameState::End);
    assert!(board.tile(2, 0).tile == TileState::RevealedMine);
    assert_eq!(values.remaining_blanks, 7);
}
