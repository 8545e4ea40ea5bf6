use vstd::prelude::*;

use crate::board::Board;
use crate::grid::{covered_blank, grid_wf, hidden_blanks, in_bounds, lemma_count_tiles_zero};
use crate::tile_states::Tile;
use crate::pointer_handling::{listed, pos};

verus! {

/// The state of the game as a whole.
#[derive(PartialEq, Eq, Structural, Clone, Copy)]
pub enum GameState {
    Initializing,
    Playing,
    Win,
    Lose,
    End,
}

impl Default for GameState {
    fn default() -> (s: GameState)
        ensures
            s == GameState::Initializing,
    {
        GameState::Initializing
    }
}

/// The values that describe a running game: its state, the number of blank
/// tiles that are still covered, and the side of a tile on screen.
pub struct GameValues {
    pub state: GameState,
    pub remaining_blanks: i32,
    pub tile_size: u32,
}

impl Default for GameValues {
    fn default() -> (v: GameValues)
        ensures
            v.state == GameState::Initializing,
            v.remaining_blanks == 0,
            v.tile_size == 0,
    {
        GameValues { state: GameState::Initializing, remaining_blanks: 0, tile_size: 0 }
    }
}

/// The larger of two numbers.
pub fn max(a: u32, b: u32) -> (m: u32)
    ensures
        m == if a > b { a } else { b },
{
    if a > b {
        a
    } else {
        b
    }
}

/// What has to be put on screen after a win check.
#[derive(PartialEq, Eq, Structural, Clone, Copy)]
pub enum EndScreen {
    /// Nothing changes on screen.
    Nothing,
    /// The game was lost: show the losing banner and uncover every mine.
    Lose,
    /// The game was won: show the winning banner.
    Win,
}

/// The state that follows `state` in a win check, given the number of blank
/// tiles still covered.
pub open spec fn next_state(state: GameState, remaining_blanks: int) -> GameState {
    match state {
        GameState::Lose => GameState::End,
        GameState::Playing => if remaining_blanks <= 0 {
            GameState::Win
        } else {
            GameState::Playing
        },
        GameState::Win => GameState::End,
        GameState::End => GameState::End,
        GameState::Initializing => GameState::Initializing,
    }
}

/// The screen that a win check in `state` puts up.
pub open spec fn end_screen_of(state: GameState) -> EndScreen {
    match state {
        GameState::Lose => EndScreen::Lose,
        GameState::Win => EndScreen::Win,
        _ => EndScreen::Nothing,
    }
}

/// Advances the game state once: a lost or won game moves to its end screen,
/// a game in play is won once no covered blank tile is left.
pub fn win_check(game_values: &mut GameValues) -> (screen: EndScreen)
    ensures
        final(game_values).state == next_state(old(game_values).state, old(game_values).remaining_blanks as int),
        final(game_values).remaining_blanks == old(game_values).remaining_blanks,
        final(game_values).tile_size == old(game_values).tile_size,
        screen == end_screen_of(old(game_values).state),
{
    let (state, screen) = match game_values.state {
        GameState::Lose => (GameState::End, EndScreen::Lose),
        GameState::Playing => if game_values.remaining_blanks <= 0 {
            (GameState::Win, EndScreen::Nothing)
        } else {
            (GameState::Playing, EndScreen::Nothing)
        },
        GameState::Win => (GameState::End, EndScreen::Win),
        GameState::End => (GameState::End, EndScreen::Nothing),
        GameState::Initializing => (GameState::Initializing, EndScreen::Nothing),
    };
    game_values.state = state;
    screen
}

/// Whether tile p comes before tile q, column by column.
pub open spec fn comes_before(p: (usize, usize), q: (usize, usize)) -> bool {
    p.0 < q.0 || (p.0 == q.0 && p.1 < q.1)
}

/// The places of the tiles that hold a mine (`mines` true) or hold none
/// (`mines` false), column by column: the mines to uncover when the game is
/// lost, or the blanks to uncover one after the other on request.
pub fn tile_positions(board: &Board, mines: bool) -> (positions: Vec<(usize, usize)>)
    requires
        board.wf(),
    ensures
        forall|i: int|
            0 <= i < positions.len() ==> in_bounds(
                board.spec_width(),
                board.spec_height(),
                (#[trigger] positions@[i]).0 as int,
                positions@[i].1 as int,
            ) && board.cells()[positions@[i].0 as int][positions@[i].1 as int].tile.is_mine() == mines,
        forall|x: int, y: int|
            in_bounds(board.spec_width(), board.spec_height(), x, y) && (#[trigger] board.cells()[x][y]).tile.is_mine()
                == mines ==> listed(positions@, (x, y)),
        forall|i: int, j: int|
            0 <= i < j < positions.len() ==> comes_before(positions@[i], positions@[j]),
{
    let ghost g = board.cells();
    let ghost w = board.spec_width();
    let ghost h = board.spec_height();
    let width = board.width();
    let height = board.height();
    let mut positions: Vec<(usize, usize)> = Vec::new();
    let mut x: usize = 0;
    while x < width
        invariant
            board.wf(),
            g == board.cells(),
            w == board.spec_width(),
            h == board.spec_height(),
            width == w,
            height == h,
            0 <= x <= w,
            forall|i: int|
                0 <= i < positions.len() ==> in_bounds(w, h, (#[trigger] positions@[i]).0 as int, positions@[i].1 as int)
                    && g[positions@[i].0 as int][positions@[i].1 as int].tile.is_mine() == mines
                    && positions@[i].0 < x,
            forall|a: int, b: int|
                in_bounds(w, h, a, b) && a < x && (#[trigger] g[a][b]).tile.is_mine() == mines
                    ==> listed(positions@, (a, b)),
            forall|i: int, j: int|
                0 <= i < j < positions.len() ==> comes_before(positions@[i], positions@[j]),
        decreases w - x,
    {
        let mut y: usize = 0;
        while y < height
            invariant
                board.wf(),
                g == board.cells(),
                w == board.spec_width(),
                h == board.spec_height(),
                width == w,
                height == h,
                0 <= x < w,
                0 <= y <= h,
                forall|i: int|
                    0 <= i < positions.len() ==> in_bounds(w, h, (#[trigger] positions@[i]).0 as int, positions@[i].1 as int)
                        && g[positions@[i].0 as int][positions@[i].1 as int].tile.is_mine() == mines
                        && comes_before(positions@[i], (x, y)),
                forall|a: int, b: int|
                    in_bounds(w, h, a, b) && (a < x || (a == x && b < y)) && (#[trigger] g[a][b]).tile.is_mine()
                        == mines ==> listed(positions@, (a, b)),
                forall|i: int, j: int|
                    0 <= i < j < positions.len() ==> comes_before(positions@[i], positions@[j]),
            decreases h - y,
        {
            let ghost before = positions@;
            if board.tile(x, y).tile.is_mine() == mines {
                positions.push((x, y));
                proof {
                    assert(pos(positions@[positions@.len() - 1]) == (x as int, y as int));
                    assert forall|a: int, b: int|
                        in_bounds(w, h, a, b) && (a < x || (a == x && b < y + 1)) && (#[trigger] g[a][b]).tile.is_mine()
                            == mines implies listed(positions@, (a, b)) by {
                        if a != x || b != y {
                            let i = choose|i: int| 0 <= i < before.len() && pos(#[trigger] before[i]) == (a, b);
                            assert(positions@[i] == before[i]);
                        }
                    }
                }
            }
            y = y + 1;
        }
        x = x + 1;
    }
    positions
}

/// While the count of remaining blanks equals the number of covered blank
/// tiles, a win check in play declares a win exactly when every tile that
/// holds no mine has been uncovered.
pub proof fn lemma_win_iff_all_blanks_uncovered(g: Seq<Seq<Tile>>, w: int, h: int, remaining_blanks: int)
    requires
        grid_wf(g, w, h),
        remaining_blanks == hidden_blanks(g),
    ensures
        next_state(GameState::Playing, remaining_blanks) == GameState::Win <==> forall|x: int, y: int|
            in_bounds(w, h, x, y) ==> (#[trigger] g[x][y]).tile.is_revealed() || g[x][y].tile.is_mine(),
{
    lemma_count_tiles_zero(g, covered_blank(), w, h);
}

/// The steps of the win check, whatever the count of remaining blanks: a lost
/// game shows the losing screen and ends, a won game shows the winning
/// screen and ends, an ended game stays ended and a game not yet started
/// stays so, both showing nothing; a game in play is won exactly when no
/// blank is left and otherwise stays in play, showing nothing either way.
pub proof fn lemma_win_check_steps(remaining_blanks: int)
    ensures
        next_state(GameState::End, remaining_blanks) == GameState::End,
        end_screen_of(GameState::End) == EndScreen::Nothing,
        next_state(GameState::Lose, remaining_blanks) == GameState::End,
        end_screen_of(GameState::Lose) == EndScreen::Lose,
        next_state(GameState::Win, remaining_blanks) == GameState::End,
        end_screen_of(GameState::Win) == EndScreen::Win,
        next_state(GameState::Initializing, remaining_blanks) == GameState::Initializing,
        end_screen_of(GameState::Initializing) == EndScreen::Nothing,
        remaining_blanks <= 0 ==> next_state(GameState::Playing, remaining_blanks) == GameState::Win,
        remaining_blanks > 0 ==> next_state(GameState::Playing, remaining_blanks) == GameState::Playing,
        end_screen_of(GameState::Playing) == EndScreen::Nothing,
{
}

/// Once ended, a game never leaves the end, however many win checks follow.
pub proof fn lemma_end_is_final(state: GameState, remaining_blanks: int)
    requires
        state == GameState::End,
    ensures
        next_state(state, remaining_blanks) == GameState::End,
        next_state(next_state(state, remaining_blanks), remaining_blanks) == GameState::End,
{
}

} // verus!
