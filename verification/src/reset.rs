use vstd::prelude::*;

use crate::board::Board;
use crate::game::{GameState, GameValues};
use crate::init::{freshly_mined, lay_mines};
use crate::grid::{
    columns, counts_consistent, grid_update, hidden_blanks, in_bounds, lemma_mines_around_bound,
    lemma_mines_around_congruent, mine_at, mine_capacity_of, mines_around, mines_in_block,
    mines_in_column, neighbor, on_grid,
};
use crate::tile_states::{Tile, TileState};

verus! {

/// Counts the mines in the 3x3 block centred on (x, y), the centre included,
/// among the tiles that the grid has.
fn count_mines_around(tiles: &Vec<Vec<Tile>>, x: usize, y: usize) -> (n: u8)
    requires
        on_grid(columns(tiles@), x as int, y as int),
    ensures
        n == mines_around(columns(tiles@), x as int, y as int),
{
    let ghost g = columns(tiles@);
    let mut n: u8 = 0;
    let mut dx: usize = 0;
    while dx < 3
        invariant
            g == columns(tiles@),
            on_grid(g, x as int, y as int),
            0 <= dx <= 3,
            n <= 3 * dx,
            n == mines_in_block(g, x as int, y as int, dx as int),
        decreases 3 - dx,
    {
        let mut dy: usize = 0;
        while dy < 3
            invariant
                g == columns(tiles@),
                on_grid(g, x as int, y as int),
                0 <= dx < 3,
                0 <= dy <= 3,
                n <= 3 * dx + dy,
                n == mines_in_block(g, x as int, y as int, dx as int) + mines_in_column(
                    g,
                    x + dx - 1,
                    y as int,
                    dy as int,
                ),
            decreases 3 - dy,
        {
            let ghost before = n;
            assert(g[x as int].len() == tiles@[x as int]@.len());
            assert(tiles@[x as int].len() == tiles@[x as int]@.len());
            if let Some(a) = neighbor(x, dx, tiles.len()) {
                assert(g[a as int] == tiles@[a as int]@);
                if let Some(b) = neighbor(y, dy, tiles[a].len()) {
                    if tiles[a][b].tile.is_mine() {
                        n = n + 1;
                    }
                }
            }
            assert(n == before + mine_at(g, x + dx - 1, y + dy - 1));
            dy = dy + 1;
        }
        dx = dx + 1;
    }
    n
}

/// Gives every tile the number of mines in the 3x3 block centred on it, the
/// tile itself included, counting only the tiles that the grid has (its
/// columns may differ in length).
pub fn generate_surrounding_mines(tiles: &mut Vec<Vec<Tile>>)
    ensures
        final(tiles).len() == old(tiles).len(),
        forall|x: int| 0 <= x < old(tiles).len() ==> (#[trigger] final(tiles)@[x]).len() == old(tiles)@[x].len(),
        forall|x: int, y: int|
            on_grid(columns(old(tiles)@), x, y) ==> #[trigger] columns(final(tiles)@)[x][y] == (Tile {
                surrounding_mines: mines_around(columns(old(tiles)@), x, y) as u8,
                ..columns(old(tiles)@)[x][y]
            }),
        counts_consistent(columns(final(tiles)@)),
{
    let ghost g0 = columns(tiles@);
    let mut x: usize = 0;
    while x < tiles.len()
        invariant
            0 <= x <= tiles.len(),
            tiles.len() == g0.len(),
            forall|a: int| 0 <= a < g0.len() ==> (#[trigger] columns(tiles@)[a]).len() == g0[a].len(),
            forall|a: int, b: int|
                on_grid(g0, a, b) ==> (#[trigger] columns(tiles@)[a][b]).tile == g0[a][b].tile
                    && columns(tiles@)[a][b].x == g0[a][b].x && columns(tiles@)[a][b].y == g0[a][b].y,
            forall|a: int, b: int|
                on_grid(g0, a, b) && a < x ==> #[trigger] columns(tiles@)[a][b].surrounding_mines
                    == mines_around(g0, a, b),
            forall|a: int, b: int|
                on_grid(g0, a, b) && a >= x ==> #[trigger] columns(tiles@)[a][b] == g0[a][b],
        decreases g0.len() - x,
    {
        let mut y: usize = 0;
        while y < tiles[x].len()
            invariant
                0 <= x < tiles.len(),
                0 <= y <= tiles@[x as int].len(),
                tiles.len() == g0.len(),
                forall|a: int| 0 <= a < g0.len() ==> (#[trigger] columns(tiles@)[a]).len() == g0[a].len(),
                forall|a: int, b: int|
                    on_grid(g0, a, b) ==> (#[trigger] columns(tiles@)[a][b]).tile == g0[a][b].tile
                        && columns(tiles@)[a][b].x == g0[a][b].x && columns(tiles@)[a][b].y == g0[a][b].y,
                forall|a: int, b: int|
                    on_grid(g0, a, b) && (a < x || (a == x && b < y))
                        ==> #[trigger] columns(tiles@)[a][b].surrounding_mines == mines_around(g0, a, b),
                forall|a: int, b: int|
                    on_grid(g0, a, b) && (a > x || (a == x && b >= y)) ==> #[trigger] columns(tiles@)[a][b]
                        == g0[a][b],
            decreases tiles@[x as int].len() - y,
        {
            let ghost g1 = columns(tiles@);
            assert(g1[x as int].len() == tiles@[x as int]@.len());
            let n = count_mines_around(tiles, x, y);
            proof {
                lemma_mines_around_congruent(g1, g0, x as int, y as int);
            }
            tiles[x][y].surrounding_mines = n;
            proof {
                assert(columns(tiles@) =~~= grid_update(
                    g1,
                    x as int,
                    y as int,
                    Tile { surrounding_mines: n, ..g1[x as int][y as int] },
                ));
            }
            y = y + 1;
        }
        proof {
            assert(columns(tiles@)[x as int].len() == g0[x as int].len());
        }
        x = x + 1;
    }
    proof {
        let g = columns(tiles@);
        assert forall|x: int| 0 <= x < g0.len() implies (#[trigger] tiles@[x]).len() == old(tiles)@[x].len() by {
            assert(g[x].len() == g0[x].len());
        }
        assert forall|x: int, y: int| on_grid(g, x, y) implies (#[trigger] g[x][y]).surrounding_mines
            == mines_around(g, x, y) by {
            lemma_mines_around_congruent(g, g0, x, y);
            assert(on_grid(g0, x, y));
        }
        assert forall|x: int, y: int| on_grid(g0, x, y) implies #[trigger] g[x][y] == (Tile {
            surrounding_mines: mines_around(g0, x, y) as u8,
            ..g0[x][y]
        }) by {
            lemma_mines_around_bound(g0, x, y);
        }
    }
}

/// Starts a new game on the same board: every tile is covered again as a
/// hidden blank, `mine_count` mines are laid afresh, the counts around every
/// tile are recomputed, the count of remaining blanks is reset, and the game
/// is in play.
pub fn reset_game(game_values: &mut GameValues, board: &mut Board, mine_count: usize)
    requires
        old(board).wf(),
        old(board).spec_width() * old(board).spec_height() <= i32::MAX,
        mine_count <= mine_capacity_of(old(board).spec_width(), old(board).spec_height()),
    ensures
        final(board).wf(),
        final(board).spec_width() == old(board).spec_width(),
        final(board).spec_height() == old(board).spec_height(),
        freshly_mined(
            final(board).cells(),
            final(board).spec_width(),
            final(board).spec_height(),
            mine_count as int,
        ),
        final(game_values).state == GameState::Playing,
        final(game_values).remaining_blanks == old(board).spec_width() * old(board).spec_height()
            - mine_count,
        final(game_values).remaining_blanks == hidden_blanks(final(board).cells()),
        final(game_values).tile_size == old(game_values).tile_size,
{
    let ghost w = board.spec_width();
    let ghost h = board.spec_height();
    game_values.state = GameState::Initializing;
    let width = board.width();
    let height = board.height();
    let cells = width * height;
    assert(mine_count <= cells) by (nonlinear_arith)
        requires
            mine_count <= mine_capacity_of(width as int, height as int),
            cells == width * height,
            0 <= width,
            0 <= height,
    ;
    game_values.remaining_blanks = cells as i32 - mine_count as i32;
    let mut x: usize = 0;
    while x < width
        invariant
            board.wf(),
            board.spec_width() == w,
            board.spec_height() == h,
            width == w,
            height == h,
            0 <= x <= w,
            forall|a: int, b: int|
                in_bounds(w, h, a, b) && a < x ==> (#[trigger] board.cells()[a][b]).tile
                    == TileState::HiddenBlank,
        decreases w - x,
    {
        let mut y: usize = 0;
        while y < height
            invariant
                board.wf(),
                board.spec_width() == w,
                board.spec_height() == h,
                width == w,
                height == h,
                0 <= x < w,
                0 <= y <= h,
                forall|a: int, b: int|
                    in_bounds(w, h, a, b) && (a < x || (a == x && b < y)) ==> (#[trigger] board.cells()[a][b]).tile
                        == TileState::HiddenBlank,
            decreases h - y,
        {
            board.set_tile_state(x, y, TileState::HiddenBlank);
            y = y + 1;
        }
        x = x + 1;
    }
    lay_mines(board, mine_count);
    game_values.state = GameState::Playing;
}

/// Recounting a grid whose counts are already right, as `initialize_tiles`
/// leaves them, changes no tile.
pub proof fn lemma_recount_keeps_consistent_grid(g: Seq<Seq<Tile>>)
    requires
        counts_consistent(g),
    ensures
        forall|x: int, y: int|
            on_grid(g, x, y) ==> #[trigger] g[x][y] == (Tile {
                surrounding_mines: mines_around(g, x, y) as u8,
                ..g[x][y]
            }),
{
}

} // verus!
