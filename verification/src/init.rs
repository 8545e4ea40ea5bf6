use rand::Rng;
use vstd::prelude::*;

use crate::board::Board;
use crate::game::{GameState, GameValues};
use crate::pointer_handling::{lemma_no_mine_uncovered, region, state_after};
use crate::grid::{
    all_hidden_blank, count_before, count_row, count_rows, count_tiles, counts_consistent,
    columns, covered_blank, grid_update, on_grid, places_known, grid_wf, hidden_blanks, in_bounds, in_safe_corner, lemma_count_rows_bound,
    lemma_count_rows_congruent, lemma_ranks_distinct, lemma_count_tiles_all, lemma_count_tiles_none, lemma_count_tiles_update, lemma_mine_sites_of_blank, mine_capacity_of,
    mine_site, mine_tile,
};
use crate::reset::generate_surrounding_mines;
use crate::tile_states::{Tile, TileState};

verus! {

/// A number drawn by `rand::thread_rng().gen_range(0..n)`: uniformly from
/// 0..n by the thread-local generator.  Only its range is stated; which
/// number comes is chance.
#[verifier::external_body]
fn random_index(n: usize) -> (r: usize)
    requires
        n > 0,
    ensures
        r < n,
{
    rand::thread_rng().gen_range(0..n)
}

/// Whether a tile can receive a mine: a hidden blank outside the safe corner.
fn is_mine_site(t: Tile, height: usize) -> (b: bool)
    ensures
        b == mine_site(height as int)(t),
{
    t.tile == TileState::HiddenBlank && !(t.x <= 1 && (height < 2 || t.y >= height - 2))
}

/// The number of tiles of the board that can receive a mine.
pub fn count_mine_sites(board: &Board) -> (n: usize)
    requires
        board.wf(),
        board.spec_width() * board.spec_height() <= usize::MAX,
    ensures
        n == count_tiles(board.cells(), mine_site(board.spec_height())),
{
    let ghost g = board.cells();
    let ghost w = board.spec_width();
    let ghost h = board.spec_height();
    let ghost f = mine_site(h);
    let width = board.width();
    let height = board.height();
    let mut n: usize = 0;
    let mut x: usize = 0;
    while x < width
        invariant
            board.wf(),
            g == board.cells(),
            w == width,
            h == height,
            w == board.spec_width(),
            h == board.spec_height(),
            f == mine_site(h),
            w * h <= usize::MAX,
            0 <= x <= w,
            n == count_rows(g, f, x as int),
        decreases w - x,
    {
        let mut y: usize = 0;
        proof {
            lemma_count_rows_bound(g, f, w, h, x as int);
            assert(x * h + h <= w * h) by (nonlinear_arith)
                requires
                    x < w,
                    0 <= h,
            ;
        }
        while y < height
            invariant
                board.wf(),
                g == board.cells(),
                w == width,
                h == height,
                w == board.spec_width(),
                h == board.spec_height(),
                f == mine_site(h),
                w * h <= usize::MAX,
                0 <= x < w,
                0 <= y <= h,
                count_rows(g, f, x as int) <= x * h,
                x * h + h <= w * h,
                n == count_rows(g, f, x as int) + count_row(g[x as int], f, y as int),
            decreases h - y,
        {
            proof {
                crate::grid::lemma_count_row_bound(g[x as int], f, y as int);
            }
            let t = board.tile(x, y);
            if is_mine_site(t, height) {
                n = n + 1;
            }
            y = y + 1;
        }
        assert(g[x as int].len() == h);
        x = x + 1;
    }
    n
}

/// Puts a mine on the tile that can take one and comes `choice`-th among
/// those, counting column by column from 0, and returns its place.
pub fn place_mine(board: &mut Board, choice: usize) -> (p: (usize, usize))
    requires
        old(board).wf(),
        choice < count_tiles(old(board).cells(), mine_site(old(board).spec_height())),
    ensures
        final(board).wf(),
        final(board).spec_width() == old(board).spec_width(),
        final(board).spec_height() == old(board).spec_height(),
        in_bounds(old(board).spec_width(), old(board).spec_height(), p.0 as int, p.1 as int),
        mine_site(old(board).spec_height())(old(board).cell(p.0 as int, p.1 as int)),
        count_before(old(board).cells(), mine_site(old(board).spec_height()), p.0 as int, p.1 as int)
            == choice,
        final(board).cells() == grid_update(
            old(board).cells(),
            p.0 as int,
            p.1 as int,
            Tile { tile: TileState::HiddenMine, ..old(board).cell(p.0 as int, p.1 as int) },
        ),
{
    let ghost g = board.cells();
    let ghost w = board.spec_width();
    let ghost h = board.spec_height();
    let ghost f = mine_site(h);
    let width = board.width();
    let height = board.height();
    let mut seen: usize = 0;
    let mut x: usize = 0;
    while x < width
        invariant
            board.wf(),
            g == board.cells(),
            w == width,
            h == height,
            w == board.spec_width(),
            h == board.spec_height(),
            g == old(board).cells(),
            w == old(board).spec_width(),
            h == old(board).spec_height(),
            f == mine_site(h),
            choice < count_tiles(g, f),
            0 <= x <= w,
            seen == count_rows(g, f, x as int),
            seen <= choice,
        decreases w - x,
    {
        let mut y: usize = 0;
        while y < height
            invariant
                board.wf(),
                g == board.cells(),
                w == width,
                h == height,
                w == board.spec_width(),
                h == board.spec_height(),
                g == old(board).cells(),
                w == old(board).spec_width(),
                h == old(board).spec_height(),
                f == mine_site(h),
                choice < count_tiles(g, f),
                0 <= x < w,
                0 <= y <= h,
                seen == count_rows(g, f, x as int) + count_row(g[x as int], f, y as int),
                seen <= choice,
            decreases h - y,
        {
            let t = board.tile(x, y);
            if is_mine_site(t, height) {
                if seen == choice {
                    board.set_tile_state(x, y, TileState::HiddenMine);
                    return (x, y);
                }
                seen = seen + 1;
            }
            y = y + 1;
        }
        assert(g[x as int].len() == h);
        x = x + 1;
    }
    proof {
        assert(false);
    }
    (0, 0)
}

/// Places `mine_count` mines, each on a tile drawn uniformly at random among
/// the hidden blanks outside the safe corner.  (Drawing a column and a row
/// until such a tile comes up gives the same distribution.)
pub fn generate_mines(board: &mut Board, mine_count: usize)
    requires
        old(board).wf(),
        old(board).spec_width() * old(board).spec_height() <= usize::MAX,
        mine_count <= count_tiles(old(board).cells(), mine_site(old(board).spec_height())),
    ensures
        final(board).wf(),
        final(board).spec_width() == old(board).spec_width(),
        final(board).spec_height() == old(board).spec_height(),
        forall|x: int, y: int|
            in_bounds(old(board).spec_width(), old(board).spec_height(), x, y) ==> {
                ||| #[trigger] final(board).cells()[x][y] == old(board).cells()[x][y]
                ||| mine_site(old(board).spec_height())(old(board).cells()[x][y])
                    && final(board).cells()[x][y] == (Tile {
                    tile: TileState::HiddenMine,
                    ..old(board).cells()[x][y]
                })
            },
        count_tiles(final(board).cells(), mine_tile()) == count_tiles(old(board).cells(), mine_tile())
            + mine_count,
        count_tiles(final(board).cells(), mine_site(old(board).spec_height())) == count_tiles(
            old(board).cells(),
            mine_site(old(board).spec_height()),
        ) - mine_count,
        hidden_blanks(final(board).cells()) == hidden_blanks(old(board).cells()) - mine_count,
{
    let ghost g0 = board.cells();
    let ghost w = board.spec_width();
    let ghost h = board.spec_height();
    let mut i: usize = 0;
    while i < mine_count
        invariant
            board.wf(),
            board.spec_width() == w,
            board.spec_height() == h,
            grid_wf(g0, w, h),
            w * h <= usize::MAX,
            0 <= i <= mine_count,
            mine_count <= count_tiles(g0, mine_site(h)),
            forall|x: int, y: int|
                in_bounds(w, h, x, y) ==> {
                    ||| #[trigger] board.cells()[x][y] == g0[x][y]
                    ||| mine_site(h)(g0[x][y]) && board.cells()[x][y] == (Tile {
                        tile: TileState::HiddenMine,
                        ..g0[x][y]
                    })
                },
            count_tiles(board.cells(), mine_tile()) == count_tiles(g0, mine_tile()) + i,
            count_tiles(board.cells(), mine_site(h)) == count_tiles(g0, mine_site(h)) - i,
            hidden_blanks(board.cells()) == hidden_blanks(g0) - i,
        decreases mine_count - i,
    {
        let ghost g1 = board.cells();
        let n = count_mine_sites(board);
        let k = random_index(n);
        let p = place_mine(board, k);
        proof {
            let t = g1[p.0 as int][p.1 as int];
            let t2 = Tile { tile: TileState::HiddenMine, ..t };
            lemma_count_tiles_update(g1, mine_tile(), p.0 as int, p.1 as int, t2);
            lemma_count_tiles_update(g1, mine_site(h), p.0 as int, p.1 as int, t2);
            lemma_count_tiles_update(g1, covered_blank(), p.0 as int, p.1 as int, t2);
            assert(t == g0[p.0 as int][p.1 as int]);
        }
        i = i + 1;
    }
}

/// Builds the tiles of a grid from the states of its columns, giving every
/// tile its place and the number of mines in the 3x3 block centred on it,
/// the tile itself included and only the tiles of the grid counted.  The
/// columns may differ in length.
pub fn initialize_tiles(tiles: &Vec<Vec<TileState>>) -> (grid: Vec<Vec<Tile>>)
    ensures
        grid.len() == tiles.len(),
        forall|x: int| 0 <= x < tiles.len() ==> (#[trigger] grid@[x]).len() == tiles@[x].len(),
        forall|x: int, y: int|
            on_grid(columns(grid@), x, y) ==> (#[trigger] columns(grid@)[x][y]).tile == tiles@[x]@[y]
                && columns(grid@)[x][y].x == x && columns(grid@)[x][y].y == y,
        places_known(columns(grid@)),
        counts_consistent(columns(grid@)),
{
    let mut grid: Vec<Vec<Tile>> = Vec::new();
    let mut x: usize = 0;
    while x < tiles.len()
        invariant
            0 <= x <= tiles.len(),
            grid.len() == x,
            forall|a: int| 0 <= a < x ==> (#[trigger] grid@[a]).len() == tiles@[a].len(),
            forall|a: int, b: int|
                0 <= a < x && 0 <= b < tiles@[a].len() ==> #[trigger] grid@[a]@[b] == (Tile {
                    x: a as usize,
                    y: b as usize,
                    tile: tiles@[a]@[b],
                    surrounding_mines: 0,
                }),
        decreases tiles.len() - x,
    {
        let mut column: Vec<Tile> = Vec::new();
        let mut y: usize = 0;
        while y < tiles[x].len()
            invariant
                0 <= x < tiles.len(),
                0 <= y <= tiles@[x as int].len(),
                column.len() == y,
                forall|b: int|
                    0 <= b < y ==> #[trigger] column@[b] == (Tile {
                        x: x,
                        y: b as usize,
                        tile: tiles@[x as int]@[b],
                        surrounding_mines: 0,
                    }),
            decreases tiles@[x as int].len() - y,
        {
            column.push(Tile { x, y, tile: tiles[x][y], surrounding_mines: 0 });
            y = y + 1;
        }
        grid.push(column);
        x = x + 1;
    }
    let ghost g0 = columns(grid@);
    generate_surrounding_mines(&mut grid);
    proof {
        let g = columns(grid@);
        assert forall|x: int, y: int| on_grid(g, x, y) implies (#[trigger] g[x][y]).tile == tiles@[x]@[y]
            && g[x][y].x == x && g[x][y].y == y by {
            assert(on_grid(g0, x, y));
        }
    }
    grid
}

/// Builds a board of `width` columns of `height` tiles from the states of
/// its columns, every tile carrying the number of mines around it.
pub fn board_from_states(tiles: &Vec<Vec<TileState>>, width: usize, height: usize) -> (board: Board)
    requires
        tiles.len() == width,
        forall|x: int| 0 <= x < width ==> (#[trigger] tiles@[x]).len() == height,
    ensures
        board.wf(),
        board.spec_width() == width,
        board.spec_height() == height,
        forall|x: int, y: int|
            in_bounds(width as int, height as int, x, y) ==> (#[trigger] board.cells()[x][y]).tile
                == tiles@[x]@[y],
        counts_consistent(board.cells()),
{
    let grid = initialize_tiles(tiles);
    proof {
        let g = columns(grid@);
        assert forall|x: int| 0 <= x < width implies #[trigger] g[x].len() == height by {
            assert(grid@[x].len() == tiles@[x].len());
        }
        assert forall|x: int, y: int| in_bounds(width as int, height as int, x, y) implies (#[trigger] g[x][y]).x
            == x && g[x][y].y == y by {
            assert(g[x].len() == height);
        }
        assert forall|x: int, y: int| in_bounds(width as int, height as int, x, y) implies (#[trigger] g[x][y]).tile
            == tiles@[x]@[y] by {
            assert(g[x].len() == height);
        }
    }
    Board::from_tiles(width, height, grid)
}

/// The number of tiles that can take a mine on an empty board: all but those
/// of the safe corner.
pub fn mine_capacity(width: usize, height: usize) -> (n: usize)
    requires
        width * height <= usize::MAX,
    ensures
        n == mine_capacity_of(width as int, height as int),
{
    let a: usize = if width < 2 {
        width
    } else {
        2
    };
    let b: usize = if height < 2 {
        height
    } else {
        2
    };
    assert(a * b <= width * height) by (nonlinear_arith)
        requires
            a <= width,
            b <= height,
    ;
    width * height - a * b
}

/// A board as a new game starts it: every tile covered and unflagged,
/// `mine_count` mines of which none lies in the safe corner, every tile
/// carrying the number of mines around it, and `w * h - mine_count` covered
/// blanks.
pub open spec fn freshly_mined(g: Seq<Seq<Tile>>, w: int, h: int, mine_count: int) -> bool {
    &&& grid_wf(g, w, h)
    &&& forall|x: int, y: int|
        in_bounds(w, h, x, y) ==> {
            ||| (#[trigger] g[x][y]).tile == TileState::HiddenBlank
            ||| g[x][y].tile == TileState::HiddenMine && !in_safe_corner(h, x, y)
        }
    &&& count_tiles(g, mine_tile()) == mine_count
    &&& counts_consistent(g)
    &&& hidden_blanks(g) == w * h - mine_count
}

/// Lays `mine_count` mines on a board of hidden blanks and counts the mines
/// around every tile.
pub(crate) fn lay_mines(board: &mut Board, mine_count: usize)
    requires
        old(board).wf(),
        all_hidden_blank(old(board).cells(), old(board).spec_width(), old(board).spec_height()),
        old(board).spec_width() * old(board).spec_height() <= usize::MAX,
        mine_count <= mine_capacity_of(old(board).spec_width(), old(board).spec_height()),
    ensures
        final(board).wf(),
        final(board).spec_width() == old(board).spec_width(),
        final(board).spec_height() == old(board).spec_height(),
        freshly_mined(
            final(board).cells(),
            final(board).spec_width(),
            final(board).spec_height(),
            mine_count as int,
        ),
{
    let ghost g0 = board.cells();
    let ghost w = board.spec_width();
    let ghost h = board.spec_height();
    proof {
        lemma_mine_sites_of_blank(g0, w, h);
        assert forall|x: int, y: int| in_bounds(w, h, x, y) implies !mine_tile()(#[trigger] g0[x][y])
            && covered_blank()(g0[x][y]) by {
            assert(g0[x][y].tile == TileState::HiddenBlank);
        }
        lemma_count_tiles_none(g0, mine_tile(), w, h);
        lemma_count_tiles_all(g0, covered_blank(), w, h);
    }
    generate_mines(board, mine_count);
    let ghost g1 = board.cells();
    board.recount_mines();
    proof {
        let g2 = board.cells();
        assert forall|x: int, y: int| 0 <= x < w && 0 <= y < g1[x].len() implies mine_tile()(
            #[trigger] g1[x][y],
        ) == mine_tile()(g2[x][y]) && covered_blank()(g1[x][y]) == covered_blank()(g2[x][y]) by {
            assert(in_bounds(w, h, x, y));
        }
        lemma_count_rows_congruent(g1, g2, mine_tile(), w);
        lemma_count_rows_congruent(g1, g2, covered_blank(), w);
        assert forall|x: int, y: int| in_bounds(w, h, x, y) implies {
            ||| (#[trigger] g2[x][y]).tile == TileState::HiddenBlank
            ||| g2[x][y].tile == TileState::HiddenMine && !in_safe_corner(h, x, y)
        } by {
            assert(g2[x][y].tile == g1[x][y].tile);
            assert(g1[x][y] == g0[x][y] || mine_site(h)(g0[x][y]));
        }
    }
}

/// Starts a game on a board of `width` columns and `height` rows holding
/// `mine_count` mines: sets the count of remaining blanks and returns the
/// board.
pub fn setup(game_values: &mut GameValues, width: usize, height: usize, mine_count: usize) -> (board:
    Board)
    requires
        width * height <= i32::MAX,
        mine_count <= mine_capacity_of(width as int, height as int),
    ensures
        board.wf(),
        board.spec_width() == width,
        board.spec_height() == height,
        freshly_mined(board.cells(), width as int, height as int, mine_count as int),
        final(game_values).remaining_blanks == width * height - mine_count,
        final(game_values).remaining_blanks == hidden_blanks(board.cells()),
        final(game_values).state == old(game_values).state,
        final(game_values).tile_size == old(game_values).tile_size,
{
    let cells = width * height;
    assert(mine_count <= cells) by (nonlinear_arith)
        requires
            mine_count <= mine_capacity_of(width as int, height as int),
            cells == width * height,
            0 <= width,
            0 <= height,
    ;
    game_values.remaining_blanks = cells as i32 - mine_count as i32;
    let mut tiles: Vec<Vec<TileState>> = Vec::new();
    let mut x: usize = 0;
    while x < width
        invariant
            0 <= x <= width,
            tiles.len() == x,
            forall|a: int| 0 <= a < x ==> (#[trigger] tiles@[a]).len() == height,
            forall|a: int, b: int|
                0 <= a < x && 0 <= b < height ==> #[trigger] tiles@[a]@[b] == TileState::HiddenBlank,
        decreases width - x,
    {
        let mut column: Vec<TileState> = Vec::new();
        let mut y: usize = 0;
        while y < height
            invariant
                0 <= y <= height,
                column.len() == y,
                forall|b: int| 0 <= b < y ==> #[trigger] column@[b] == TileState::HiddenBlank,
            decreases height - y,
        {
            column.push(TileState::HiddenBlank);
            y = y + 1;
        }
        tiles.push(column);
        x = x + 1;
    }
    let mut board = board_from_states(&tiles, width, height);
    lay_mines(&mut board, mine_count);
    board
}

/// On a freshly mined board the safe corner holds no mine, so revealing a
/// tile there never loses the game.
pub proof fn lemma_safe_corner_reveal(
    g: Seq<Seq<Tile>>,
    w: int,
    h: int,
    mine_count: int,
    s: (int, int),
    state: GameState,
)
    requires
        freshly_mined(g, w, h, mine_count),
        in_bounds(w, h, s.0, s.1),
        in_safe_corner(h, s.0, s.1),
        state != GameState::Lose,
    ensures
        !g[s.0][s.1].tile.is_mine(),
        state_after(state, g, region(g, w, h, s)) != GameState::Lose,
{
    assert(g[s.0][s.1].tile == TileState::HiddenBlank);
    lemma_no_mine_uncovered(g, w, h, s, state);
}

/// Every tile that can take a mine can be chosen: its rank among the tiles
/// that can, counted column by column, is a valid choice (below their
/// number), and no other such tile has that rank, so `place_mine` with that
/// choice puts the mine on it.
pub proof fn lemma_every_site_can_get_a_mine(g: Seq<Seq<Tile>>, w: int, h: int, p: (int, int))
    requires
        grid_wf(g, w, h),
        in_bounds(w, h, p.0, p.1),
        mine_site(h)(g[p.0][p.1]),
    ensures
        count_before(g, mine_site(h), p.0, p.1) < count_tiles(g, mine_site(h)),
        forall|q: (int, int)|
            in_bounds(w, h, q.0, q.1) && mine_site(h)(#[trigger] g[q.0][q.1]) && count_before(
                g,
                mine_site(h),
                q.0,
                q.1,
            ) == count_before(g, mine_site(h), p.0, p.1) ==> q == p,
{
    lemma_ranks_distinct(g, mine_site(h), w, h, p, p);
    assert forall|q: (int, int)|
        in_bounds(w, h, q.0, q.1) && mine_site(h)(#[trigger] g[q.0][q.1]) && count_before(
            g,
            mine_site(h),
            q.0,
            q.1,
        ) == count_before(g, mine_site(h), p.0, p.1) implies q == p by {
        lemma_ranks_distinct(g, mine_site(h), w, h, p, q);
    }
}

} // verus!
