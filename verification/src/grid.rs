use vstd::prelude::*;

use crate::tile_states::{Tile, TileState};

verus! {

/// Whether (x, y) lies on a board of `w` columns and `h` rows.
pub open spec fn in_bounds(w: int, h: int, x: int, y: int) -> bool {
    0 <= x < w && 0 <= y < h
}

/// A grid of `w` columns of `h` tiles each, every tile knowing its own place.
pub open spec fn grid_wf(g: Seq<Seq<Tile>>, w: int, h: int) -> bool {
    &&& g.len() == w
    &&& 0 <= h
    &&& forall|x: int| 0 <= x < w ==> #[trigger] g[x].len() == h
    &&& forall|x: int, y: int|
        in_bounds(w, h, x, y) ==> (#[trigger] g[x][y]).x == x && g[x][y].y == y
}

/// The grid with the tile at (x, y) replaced.
pub open spec fn grid_update(g: Seq<Seq<Tile>>, x: int, y: int, t: Tile) -> Seq<Seq<Tile>> {
    g.update(x, g[x].update(y, t))
}

/// The 2x2 block in the top left corner of the board (columns 0 and 1, the two
/// highest rows), which never receives a mine.
pub open spec fn in_safe_corner(h: int, x: int, y: int) -> bool {
    x <= 1 && y >= h - 2
}

pub open spec fn ind(b: bool) -> int {
    if b {
        1
    } else {
        0
    }
}

/// The number of the first `n` tiles of a column that satisfy `f`.
pub open spec fn count_row(r: Seq<Tile>, f: spec_fn(Tile) -> bool, n: int) -> nat
    decreases n,
{
    if n <= 0 {
        0
    } else {
        count_row(r, f, n - 1) + if f(r[n - 1]) {
            1nat
        } else {
            0nat
        }
    }
}

/// The number of tiles in the first `n` columns of a grid that satisfy `f`.
pub open spec fn count_rows(g: Seq<Seq<Tile>>, f: spec_fn(Tile) -> bool, n: int) -> nat
    decreases n,
{
    if n <= 0 {
        0
    } else {
        count_rows(g, f, n - 1) + count_row(g[n - 1], f, g[n - 1].len() as int)
    }
}

/// The number of tiles of the grid that satisfy `f`.
pub open spec fn count_tiles(g: Seq<Seq<Tile>>, f: spec_fn(Tile) -> bool) -> nat {
    count_rows(g, f, g.len() as int)
}

/// The number of tiles that come before (x, y), column by column, and satisfy `f`.
pub open spec fn count_before(g: Seq<Seq<Tile>>, f: spec_fn(Tile) -> bool, x: int, y: int) -> nat {
    count_rows(g, f, x) + count_row(g[x], f, y)
}

pub open spec fn unrevealed() -> spec_fn(Tile) -> bool {
    |t: Tile| !t.tile.is_revealed()
}

/// Blank tiles that are still covered (hidden or flagged).
pub open spec fn covered_blank() -> spec_fn(Tile) -> bool {
    |t: Tile| !t.tile.is_revealed() && !t.tile.is_mine()
}

pub open spec fn mine_tile() -> spec_fn(Tile) -> bool {
    |t: Tile| t.tile.is_mine()
}

/// Tiles that can receive a mine on a board of height `h`: hidden blanks
/// outside the safe corner.
pub open spec fn mine_site(h: int) -> spec_fn(Tile) -> bool {
    |t: Tile| t.tile == TileState::HiddenBlank && !in_safe_corner(h, t.x as int, t.y as int)
}

/// The number of covered blank tiles of the grid.
pub open spec fn hidden_blanks(g: Seq<Seq<Tile>>) -> nat {
    count_tiles(g, covered_blank())
}

/// The coordinate `p + d - 1` if it lies below `bound`.
pub(crate) fn neighbor(p: usize, d: usize, bound: usize) -> (r: Option<usize>)
    requires
        p < usize::MAX,
        d < 3,
    ensures
        match r {
            Some(q) => q == p + d - 1 && q < bound,
            None => !(0 <= p + d - 1 < bound),
        },
{
    if d == 0 {
        if p == 0 || p - 1 >= bound {
            None
        } else {
            Some(p - 1)
        }
    } else if d == 1 {
        if p < bound {
            Some(p)
        } else {
            None
        }
    } else if p + 1 < bound {
        Some(p + 1)
    } else {
        None
    }
}

/// Whether (x, y) is a tile of the grid; columns may differ in length.
pub open spec fn on_grid(g: Seq<Seq<Tile>>, x: int, y: int) -> bool {
    0 <= x < g.len() && 0 <= y < g[x].len()
}

/// The columns of a grid of vectors, as sequences.
pub open spec fn columns(v: Seq<Vec<Tile>>) -> Seq<Seq<Tile>> {
    v.map_values(|r: Vec<Tile>| r@)
}

/// Every tile of the grid knows its own place.
pub open spec fn places_known(g: Seq<Seq<Tile>>) -> bool {
    forall|x: int, y: int| on_grid(g, x, y) ==> (#[trigger] g[x][y]).x == x && g[x][y].y == y
}

/// 1 where (x, y) is a tile of the grid holding a mine, else 0.
pub open spec fn mine_at(g: Seq<Seq<Tile>>, x: int, y: int) -> nat {
    if on_grid(g, x, y) && g[x][y].tile.is_mine() {
        1
    } else {
        0
    }
}

/// Mines at (x, y - 1), (x, y), (x, y + 1), the first `n` of them.
pub open spec fn mines_in_column(g: Seq<Seq<Tile>>, x: int, y: int, n: int) -> nat
    decreases n,
{
    if n <= 0 {
        0
    } else {
        mines_in_column(g, x, y, n - 1) + mine_at(g, x, y + n - 2)
    }
}

/// Mines in the columns x - 1, x, x + 1 of the block around (x, y), the first `n` columns.
pub open spec fn mines_in_block(g: Seq<Seq<Tile>>, x: int, y: int, n: int) -> nat
    decreases n,
{
    if n <= 0 {
        0
    } else {
        mines_in_block(g, x, y, n - 1) + mines_in_column(g, x + n - 2, y, 3)
    }
}

/// The number of mines in the 3x3 block centred on (x, y), the centre
/// included, counting only the tiles that the grid has.
pub open spec fn mines_around(g: Seq<Seq<Tile>>, x: int, y: int) -> nat {
    mines_in_block(g, x, y, 3)
}

/// Every tile carries the number of mines around it.
pub open spec fn counts_consistent(g: Seq<Seq<Tile>>) -> bool {
    forall|x: int, y: int|
        on_grid(g, x, y) ==> (#[trigger] g[x][y]).surrounding_mines == mines_around(g, x, y)
}

/// A block of nine tiles holds at most nine mines.
pub proof fn lemma_mines_around_bound(g: Seq<Seq<Tile>>, x: int, y: int)
    ensures
        mines_around(g, x, y) <= 9,
{
    reveal_with_fuel(mines_in_block, 4);
    reveal_with_fuel(mines_in_column, 4);
}

/// The mine count around (x, y) only depends on which tiles hold mines.
pub proof fn lemma_mines_around_congruent(g1: Seq<Seq<Tile>>, g2: Seq<Seq<Tile>>, x: int, y: int)
    requires
        g1.len() == g2.len(),
        forall|a: int| 0 <= a < g1.len() ==> (#[trigger] g1[a]).len() == g2[a].len(),
        forall|a: int, b: int| on_grid(g1, a, b) ==> (#[trigger] g1[a][b]).tile == g2[a][b].tile,
    ensures
        mines_around(g1, x, y) == mines_around(g2, x, y),
{
    reveal_with_fuel(mines_in_block, 4);
    reveal_with_fuel(mines_in_column, 4);
    assert forall|a: int, b: int| mine_at(g1, a, b) == mine_at(g2, a, b) by {
        if 0 <= a < g1.len() {
            assert(g1[a].len() == g2[a].len());
            if on_grid(g1, a, b) {
                assert(g1[a][b].tile == g2[a][b].tile);
            }
        }
    }
}

pub proof fn lemma_count_row_update(r: Seq<Tile>, f: spec_fn(Tile) -> bool, n: int, y: int, t: Tile)
    requires
        0 <= y < r.len(),
        n <= r.len(),
    ensures
        count_row(r.update(y, t), f, n) == count_row(r, f, n) + if y < n {
            ind(f(t)) - ind(f(r[y]))
        } else {
            0
        },
    decreases n,
{
    if n > 0 {
        lemma_count_row_update(r, f, n - 1, y, t);
    }
}

pub proof fn lemma_count_rows_update(
    g: Seq<Seq<Tile>>,
    f: spec_fn(Tile) -> bool,
    n: int,
    x: int,
    y: int,
    t: Tile,
)
    requires
        0 <= x < g.len(),
        0 <= y < g[x].len(),
        n <= g.len(),
    ensures
        count_rows(grid_update(g, x, y, t), f, n) == count_rows(g, f, n) + if x < n {
            ind(f(t)) - ind(f(g[x][y]))
        } else {
            0
        },
    decreases n,
{
    if n > 0 {
        lemma_count_rows_update(g, f, n - 1, x, y, t);
        let g2 = grid_update(g, x, y, t);
        if n - 1 == x {
            lemma_count_row_update(g[x], f, g[x].len() as int, y, t);
        } else {
            assert(g2[n - 1] == g[n - 1]);
        }
    }
}

/// Replacing one tile changes a count by the difference it makes itself.
pub proof fn lemma_count_tiles_update(g: Seq<Seq<Tile>>, f: spec_fn(Tile) -> bool, x: int, y: int, t: Tile)
    requires
        0 <= x < g.len(),
        0 <= y < g[x].len(),
    ensures
        count_tiles(grid_update(g, x, y, t), f) == count_tiles(g, f) + ind(f(t)) - ind(f(g[x][y])),
{
    lemma_count_rows_update(g, f, g.len() as int, x, y, t);
}

pub proof fn lemma_count_row_congruent(r1: Seq<Tile>, r2: Seq<Tile>, f: spec_fn(Tile) -> bool, n: int)
    requires
        n <= r1.len(),
        n <= r2.len(),
        forall|y: int| 0 <= y < n ==> f(#[trigger] r1[y]) == f(r2[y]),
    ensures
        count_row(r1, f, n) == count_row(r2, f, n),
    decreases n,
{
    if n > 0 {
        lemma_count_row_congruent(r1, r2, f, n - 1);
    }
}

/// Two grids of the same shape whose tiles agree on `f` have the same count.
pub proof fn lemma_count_rows_congruent(
    g1: Seq<Seq<Tile>>,
    g2: Seq<Seq<Tile>>,
    f: spec_fn(Tile) -> bool,
    n: int,
)
    requires
        n <= g1.len(),
        n <= g2.len(),
        forall|x: int| 0 <= x < n ==> (#[trigger] g1[x]).len() == g2[x].len(),
        forall|x: int, y: int|
            0 <= x < n && 0 <= y < g1[x].len() ==> f(#[trigger] g1[x][y]) == f(g2[x][y]),
    ensures
        count_rows(g1, f, n) == count_rows(g2, f, n),
    decreases n,
{
    if n > 0 {
        lemma_count_rows_congruent(g1, g2, f, n - 1);
        lemma_count_row_congruent(g1[n - 1], g2[n - 1], f, g1[n - 1].len() as int);
    }
}

pub proof fn lemma_count_row_bound(r: Seq<Tile>, f: spec_fn(Tile) -> bool, n: int)
    requires
        0 <= n,
    ensures
        count_row(r, f, n) <= n,
    decreases n,
{
    if n > 0 {
        lemma_count_row_bound(r, f, n - 1);
    }
}

/// The number of tiles that can receive a mine on an empty board of `w`
/// columns and `h` rows: all but those of the safe corner.
pub open spec fn mine_capacity_of(w: int, h: int) -> int {
    w * h - (if w < 2 { w } else { 2 }) * (if h < 2 { h } else { 2 })
}

/// A grid whose tiles are all hidden blanks.
pub open spec fn all_hidden_blank(g: Seq<Seq<Tile>>, w: int, h: int) -> bool {
    forall|x: int, y: int| in_bounds(w, h, x, y) ==> (#[trigger] g[x][y]).tile == TileState::HiddenBlank
}

proof fn lemma_count_row_all(r: Seq<Tile>, f: spec_fn(Tile) -> bool, n: int)
    requires
        0 <= n <= r.len(),
        forall|y: int| 0 <= y < n ==> f(#[trigger] r[y]),
    ensures
        count_row(r, f, n) == n,
    decreases n,
{
    if n > 0 {
        lemma_count_row_all(r, f, n - 1);
    }
}

proof fn lemma_count_rows_all(g: Seq<Seq<Tile>>, f: spec_fn(Tile) -> bool, w: int, h: int, n: int)
    requires
        grid_wf(g, w, h),
        0 <= n <= w,
        0 <= h,
        forall|x: int, y: int| in_bounds(w, h, x, y) ==> f(#[trigger] g[x][y]),
    ensures
        count_rows(g, f, n) == n * h,
    decreases n,
{
    if n > 0 {
        lemma_count_rows_all(g, f, w, h, n - 1);
        assert forall|y: int| 0 <= y < h implies f(#[trigger] g[n - 1][y]) by {
            assert(in_bounds(w, h, n - 1, y));
        }
        assert(g[n - 1].len() == h);
        lemma_count_row_all(g[n - 1], f, h);
        assert(count_rows(g, f, n) == count_rows(g, f, n - 1) + count_row(g[n - 1], f, h));
        assert((n - 1) * h + h == n * h) by (nonlinear_arith);
    } else {
        assert(0 * h == 0);
    }
}

/// When every tile satisfies `f`, the count is the number of tiles.
pub proof fn lemma_count_tiles_all(g: Seq<Seq<Tile>>, f: spec_fn(Tile) -> bool, w: int, h: int)
    requires
        grid_wf(g, w, h),
        0 <= h,
        forall|x: int, y: int| in_bounds(w, h, x, y) ==> f(#[trigger] g[x][y]),
    ensures
        count_tiles(g, f) == w * h,
{
    lemma_count_rows_all(g, f, w, h, w);
}

proof fn lemma_count_row_sites(r: Seq<Tile>, x: int, h: int, n: int)
    requires
        0 <= n <= h,
        r.len() == h,
        forall|y: int| 0 <= y < h ==> (#[trigger] r[y]).tile == TileState::HiddenBlank && r[y].x == x && r[y].y == y,
    ensures
        count_row(r, mine_site(h), n) == if x <= 1 {
            if n < h - 2 { n } else if h - 2 < 0 { 0 } else { h - 2 }
        } else {
            n
        },
    decreases n,
{
    if n > 0 {
        lemma_count_row_sites(r, x, h, n - 1);
        assert(r[n - 1].tile == TileState::HiddenBlank);
    }
}

proof fn lemma_count_rows_sites(g: Seq<Seq<Tile>>, w: int, h: int, n: int)
    requires
        grid_wf(g, w, h),
        all_hidden_blank(g, w, h),
        0 <= n <= w,
        0 <= h,
    ensures
        count_rows(g, mine_site(h), n) == (if n < 2 { n } else { 2 }) * (if h < 2 { 0 } else { h - 2 })
            + (if n < 2 { 0 } else { n - 2 }) * h,
    decreases n,
{
    if n > 0 {
        lemma_count_rows_sites(g, w, h, n - 1);
        assert forall|y: int| 0 <= y < h implies (#[trigger] g[n - 1][y]).tile == TileState::HiddenBlank
            && g[n - 1][y].x == n - 1 && g[n - 1][y].y == y by {
            assert(in_bounds(w, h, n - 1, y));
        }
        assert(g[n - 1].len() == h);
        lemma_count_row_sites(g[n - 1], n - 1, h, h);
        assert(count_rows(g, mine_site(h), n) == count_rows(g, mine_site(h), n - 1) + count_row(g[n - 1], mine_site(h), h));
        let c = if h < 2 { 0 } else { h - 2 };
        let prev = count_rows(g, mine_site(h), n - 1) as int;
        let row = count_row(g[n - 1], mine_site(h), h) as int;
        assert(prev + row == (if n < 2 { n } else { 2 }) * c + (if n < 2 { 0 } else { n - 2 }) * h)
            by (nonlinear_arith)
            requires
                1 <= n,
                prev == (if n - 1 < 2 { n - 1 } else { 2 }) * c + (if n - 1 < 2 { 0 } else { n - 3 }) * h,
                row == if n - 1 <= 1 { c } else { h },
        ;
    } else {
        assert(0 * h == 0);
    }
}

/// On a board of hidden blanks, every tile outside the safe corner can take a mine.
pub proof fn lemma_mine_sites_of_blank(g: Seq<Seq<Tile>>, w: int, h: int)
    requires
        grid_wf(g, w, h),
        all_hidden_blank(g, w, h),
        0 <= h,
    ensures
        count_tiles(g, mine_site(h)) == mine_capacity_of(w, h),
{
    lemma_count_rows_sites(g, w, h, w);
    let a = if w < 2 { w } else { 2 };
    let b = if h < 2 { h } else { 2 };
    let c = if h < 2 { 0 } else { h - 2 };
    let d = if w < 2 { 0 } else { w - 2 };
    assert(a * c + d * h == w * h - a * b) by (nonlinear_arith)
        requires
            0 <= w,
            0 <= h,
            a == if w < 2 { w } else { 2 },
            b == if h < 2 { h } else { 2 },
            c == if h < 2 { 0 } else { h - 2 },
            d == if w < 2 { 0 } else { w - 2 },
    ;
}

/// Within the first `n` columns there are at most as many counted tiles as tiles.
pub proof fn lemma_count_rows_bound(g: Seq<Seq<Tile>>, f: spec_fn(Tile) -> bool, w: int, h: int, n: int)
    requires
        grid_wf(g, w, h),
        0 <= n <= w,
        0 <= h,
    ensures
        count_rows(g, f, n) <= n * h,
    decreases n,
{
    if n > 0 {
        lemma_count_rows_bound(g, f, w, h, n - 1);
        lemma_count_row_bound(g[n - 1], f, h);
        assert((n - 1) * h + h == n * h) by (nonlinear_arith);
    } else {
        assert(0 * h == 0);
    }
}

proof fn lemma_count_row_none(r: Seq<Tile>, f: spec_fn(Tile) -> bool, n: int)
    requires
        n <= r.len(),
        forall|y: int| 0 <= y < n ==> !f(#[trigger] r[y]),
    ensures
        count_row(r, f, n) == 0,
    decreases n,
{
    if n > 0 {
        lemma_count_row_none(r, f, n - 1);
    }
}

proof fn lemma_count_rows_none(g: Seq<Seq<Tile>>, f: spec_fn(Tile) -> bool, w: int, h: int, n: int)
    requires
        grid_wf(g, w, h),
        n <= w,
        forall|x: int, y: int| in_bounds(w, h, x, y) ==> !f(#[trigger] g[x][y]),
    ensures
        count_rows(g, f, n) == 0,
    decreases n,
{
    if n > 0 {
        lemma_count_rows_none(g, f, w, h, n - 1);
        assert forall|y: int| 0 <= y < g[n - 1].len() implies !f(#[trigger] g[n - 1][y]) by {
            assert(in_bounds(w, h, n - 1, y));
        }
        lemma_count_row_none(g[n - 1], f, g[n - 1].len() as int);
    }
}

/// When no tile satisfies `f`, the count is zero.
pub proof fn lemma_count_tiles_none(g: Seq<Seq<Tile>>, f: spec_fn(Tile) -> bool, w: int, h: int)
    requires
        grid_wf(g, w, h),
        forall|x: int, y: int| in_bounds(w, h, x, y) ==> !f(#[trigger] g[x][y]),
    ensures
        count_tiles(g, f) == 0,
{
    lemma_count_rows_none(g, f, w, h, w);
}

proof fn lemma_count_row_pos(r: Seq<Tile>, f: spec_fn(Tile) -> bool, n: int, y: int)
    requires
        0 <= y < n <= r.len(),
        f(r[y]),
    ensures
        count_row(r, f, n) >= 1,
    decreases n,
{
    if y < n - 1 {
        lemma_count_row_pos(r, f, n - 1, y);
    }
}

proof fn lemma_count_rows_pos(g: Seq<Seq<Tile>>, f: spec_fn(Tile) -> bool, n: int, x: int, y: int)
    requires
        0 <= x < n <= g.len(),
        0 <= y < g[x].len(),
        f(g[x][y]),
    ensures
        count_rows(g, f, n) >= 1,
    decreases n,
{
    if x < n - 1 {
        lemma_count_rows_pos(g, f, n - 1, x, y);
    } else {
        lemma_count_row_pos(g[x], f, g[x].len() as int, y);
    }
}

/// A count is zero exactly when no tile satisfies `f`.
pub proof fn lemma_count_tiles_zero(g: Seq<Seq<Tile>>, f: spec_fn(Tile) -> bool, w: int, h: int)
    requires
        grid_wf(g, w, h),
    ensures
        count_tiles(g, f) == 0 <==> forall|x: int, y: int| in_bounds(w, h, x, y) ==> !f(#[trigger] g[x][y]),
{
    if forall|x: int, y: int| in_bounds(w, h, x, y) ==> !f(#[trigger] g[x][y]) {
        lemma_count_tiles_none(g, f, w, h);
    } else {
        let (x, y) = choose|x: int, y: int| in_bounds(w, h, x, y) && f(#[trigger] g[x][y]);
        lemma_count_rows_pos(g, f, w, x, y);
    }
}

/// Turning one tile of the grid into a mine raises the count around every
/// tile whose 3x3 block holds it by exactly one and leaves every other count
/// as it was.
pub proof fn lemma_mines_around_add_mine(g: Seq<Seq<Tile>>, p: (int, int), q: (int, int), t: Tile)
    requires
        on_grid(g, q.0, q.1),
        !g[q.0][q.1].tile.is_mine(),
        t.tile.is_mine(),
    ensures
        mines_around(grid_update(g, q.0, q.1, t), p.0, p.1) == mines_around(g, p.0, p.1) + if -1 <= q.0
            - p.0 <= 1 && -1 <= q.1 - p.1 <= 1 {
            1int
        } else {
            0int
        },
{
    let g2 = grid_update(g, q.0, q.1, t);
    assert forall|a: int, b: int|
        mine_at(g2, a, b) == mine_at(g, a, b) + if a == q.0 && b == q.1 {
            1int
        } else {
            0int
        } by {
        if 0 <= a < g.len() {
            if a == q.0 {
                assert(g2[a] == g[a].update(q.1, t));
            } else {
                assert(g2[a] == g[a]);
            }
        }
    }
    reveal_with_fuel(mines_in_block, 4);
    reveal_with_fuel(mines_in_column, 4);
}

/// A tile whose 3x3 block holds no mine has a count of zero.
pub proof fn lemma_mines_around_no_mine(g: Seq<Seq<Tile>>, p: (int, int))
    requires
        forall|a: int, b: int|
            -1 <= a - p.0 <= 1 && -1 <= b - p.1 <= 1 && on_grid(g, a, b) ==> !(#[trigger] g[a][b]).tile.is_mine(),
    ensures
        mines_around(g, p.0, p.1) == 0,
{
    reveal_with_fuel(mines_in_block, 4);
    reveal_with_fuel(mines_in_column, 4);
    assert forall|a: int, b: int| -1 <= a - p.0 <= 1 && -1 <= b - p.1 <= 1 implies mine_at(g, a, b) == 0 by {
        if on_grid(g, a, b) {
            assert(!g[a][b].tile.is_mine());
        }
    }
}

/// The safe corner is the 2x2 block of columns 0 and 1 and the two highest rows.
pub proof fn lemma_safe_corner(w: int, h: int, x: int, y: int)
    requires
        in_bounds(w, h, x, y),
    ensures
        in_safe_corner(h, x, y) <==> (x == 0 || x == 1) && (y == h - 1 || y == h - 2),
{
}

proof fn lemma_count_row_mono(r: Seq<Tile>, f: spec_fn(Tile) -> bool, m1: int, m2: int)
    requires
        0 <= m1 <= m2 <= r.len(),
    ensures
        count_row(r, f, m1) <= count_row(r, f, m2),
        forall|y: int| m1 <= y < m2 && f(#[trigger] r[y]) ==> count_row(r, f, m1) < count_row(r, f, m2),
    decreases m2 - m1,
{
    if m1 < m2 {
        lemma_count_row_mono(r, f, m1, m2 - 1);
    }
}

proof fn lemma_count_rows_mono(g: Seq<Seq<Tile>>, f: spec_fn(Tile) -> bool, n1: int, n2: int)
    requires
        0 <= n1 <= n2 <= g.len(),
    ensures
        count_rows(g, f, n1) <= count_rows(g, f, n2),
    decreases n2 - n1,
{
    if n1 < n2 {
        lemma_count_rows_mono(g, f, n1, n2 - 1);
    }
}

/// Counted column by column, the tiles that satisfy `f` get the distinct
/// ranks 0, 1, ... below their number: every such tile has a rank of its own,
/// so a choice among them can fall on any of them.
pub proof fn lemma_ranks_distinct(g: Seq<Seq<Tile>>, f: spec_fn(Tile) -> bool, w: int, h: int, p: (int, int), q: (int, int))
    requires
        grid_wf(g, w, h),
        in_bounds(w, h, p.0, p.1),
        in_bounds(w, h, q.0, q.1),
        f(g[p.0][p.1]),
        f(g[q.0][q.1]),
    ensures
        count_before(g, f, p.0, p.1) < count_tiles(g, f),
        p != q ==> count_before(g, f, p.0, p.1) != count_before(g, f, q.0, q.1),
{
    assert forall|a: int, b: int| in_bounds(w, h, a, b) && f(#[trigger] g[a][b]) implies count_before(g, f, a, b)
        < count_rows(g, f, a + 1) && count_rows(g, f, a + 1) <= count_tiles(g, f) by {
        assert(g[a].len() == h);
        lemma_count_row_mono(g[a], f, b, h);
        lemma_count_rows_mono(g, f, a + 1, w);
    }
    assert(count_before(g, f, p.0, p.1) < count_rows(g, f, p.0 + 1));
    assert(count_before(g, f, q.0, q.1) < count_rows(g, f, q.0 + 1));
    if p.0 < q.0 {
        lemma_count_rows_mono(g, f, p.0 + 1, q.0);
        assert(g[q.0].len() == h);
        lemma_count_row_mono(g[q.0], f, 0, q.1);
    } else if q.0 < p.0 {
        lemma_count_rows_mono(g, f, q.0 + 1, p.0);
        assert(g[p.0].len() == h);
        lemma_count_row_mono(g[p.0], f, 0, p.1);
    } else if p.1 < q.1 {
        assert(g[p.0].len() == h);
        lemma_count_row_mono(g[p.0], f, p.1, q.1);
    } else if q.1 < p.1 {
        assert(g[p.0].len() == h);
        lemma_count_row_mono(g[p.0], f, q.1, p.1);
    }
}

/// A tile can take a mine exactly when it is a covered, unflagged blank
/// outside the 2x2 block of columns 0 and 1 and the two highest rows; an
/// empty board of at least two columns and two rows has room for all but
/// four of its tiles.
pub proof fn lemma_mine_site_meaning(h: int, t: Tile, w: int)
    requires
        0 <= t.y < h,
    ensures
        mine_site(h)(t) <==> t.tile == TileState::HiddenBlank && !((t.x == 0 || t.x == 1) && (t.y
            == h - 1 || t.y == h - 2)),
        w >= 2 && h >= 2 ==> mine_capacity_of(w, h) == w * h - 4,
        w >= 2 && h == 1 ==> mine_capacity_of(w, h) == w - 2,
        w == 1 && h >= 2 ==> mine_capacity_of(w, h) == h - 2,
{
    if w >= 2 && h == 1 {
        assert(w * 1 == w);
    }
    if w == 1 && h >= 2 {
        assert(1 * h == h);
    }
}

} // verus!
