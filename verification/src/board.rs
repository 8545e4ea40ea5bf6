use vstd::prelude::*;

use crate::grid::{columns, counts_consistent, grid_update, grid_wf, in_bounds, mines_around};
use crate::reset::generate_surrounding_mines;
use crate::tile_states::{Tile, TileState};

verus! {

/// The tiles of a board, stored column by column: `tiles[x][y]` is the tile
/// in column `x` and row `y`.
pub struct Board {
    width: usize,
    height: usize,
    tiles: Vec<Vec<Tile>>,
}

impl Board {
    /// The tiles as a grid of columns.
    pub closed spec fn cells(self) -> Seq<Seq<Tile>> {
        columns(self.tiles@)
    }

    pub closed spec fn spec_width(self) -> int {
        self.width as int
    }

    pub closed spec fn spec_height(self) -> int {
        self.height as int
    }

    /// Every column holds `height` tiles and every tile knows its place.
    pub open spec fn wf(self) -> bool {
        grid_wf(self.cells(), self.spec_width(), self.spec_height())
    }

    pub open spec fn cell(self, x: int, y: int) -> Tile {
        self.cells()[x][y]
    }

    /// Builds a board from its columns.
    pub fn from_tiles(width: usize, height: usize, tiles: Vec<Vec<Tile>>) -> (b: Board)
        requires
            grid_wf(columns(tiles@), width as int, height as int),
        ensures
            b.wf(),
            b.spec_width() == width,
            b.spec_height() == height,
            b.cells() == columns(tiles@),
    {
        Board { width, height, tiles }
    }

    pub fn width(&self) -> (w: usize)
        ensures
            w == self.spec_width(),
    {
        self.width
    }

    pub fn height(&self) -> (h: usize)
        ensures
            h == self.spec_height(),
    {
        self.height
    }

    /// The tile at (x, y).
    pub fn tile(&self, x: usize, y: usize) -> (t: Tile)
        requires
            self.wf(),
            in_bounds(self.spec_width(), self.spec_height(), x as int, y as int),
        ensures
            t == self.cell(x as int, y as int),
    {
        self.tiles[x][y]
    }

    /// Gives the tile at (x, y) a new state.
    pub fn set_tile_state(&mut self, x: usize, y: usize, s: TileState)
        requires
            old(self).wf(),
            in_bounds(old(self).spec_width(), old(self).spec_height(), x as int, y as int),
        ensures
            final(self).wf(),
            final(self).spec_width() == old(self).spec_width(),
            final(self).spec_height() == old(self).spec_height(),
            final(self).cells() == grid_update(
                old(self).cells(),
                x as int,
                y as int,
                Tile { tile: s, ..old(self).cell(x as int, y as int) },
            ),
    {
        self.tiles[x][y].tile = s;
        proof {
            let g = grid_update(
                old(self).cells(),
                x as int,
                y as int,
                Tile { tile: s, ..old(self).cell(x as int, y as int) },
            );
            assert(self.cells() =~~= g);
        }
    }

    /// Gives the tile at (x, y) a new mine count.
    pub fn set_surrounding_mines(&mut self, x: usize, y: usize, n: u8)
        requires
            old(self).wf(),
            in_bounds(old(self).spec_width(), old(self).spec_height(), x as int, y as int),
        ensures
            final(self).wf(),
            final(self).spec_width() == old(self).spec_width(),
            final(self).spec_height() == old(self).spec_height(),
            final(self).cells() == grid_update(
                old(self).cells(),
                x as int,
                y as int,
                Tile { surrounding_mines: n, ..old(self).cell(x as int, y as int) },
            ),
    {
        self.tiles[x][y].surrounding_mines = n;
        proof {
            let g = grid_update(
                old(self).cells(),
                x as int,
                y as int,
                Tile { surrounding_mines: n, ..old(self).cell(x as int, y as int) },
            );
            assert(self.cells() =~~= g);
        }
    }

    /// Gives every tile the number of mines in the 3x3 block centred on it.
    pub fn recount_mines(&mut self)
        requires
            old(self).wf(),
        ensures
            final(self).wf(),
            final(self).spec_width() == old(self).spec_width(),
            final(self).spec_height() == old(self).spec_height(),
            forall|x: int, y: int|
                in_bounds(old(self).spec_width(), old(self).spec_height(), x, y)
                    ==> #[trigger] final(self).cells()[x][y] == (Tile {
                    surrounding_mines: mines_around(old(self).cells(), x, y) as u8,
                    ..old(self).cells()[x][y]
                }),
            counts_consistent(final(self).cells()),
    {
        generate_surrounding_mines(&mut self.tiles);
        proof {
            let g0 = old(self).cells();
            let g = self.cells();
            assert forall|x: int| 0 <= x < g.len() implies #[trigger] g[x].len() == self.height by {
                assert(g0[x].len() == self.height);
            }
            assert forall|x: int, y: int| in_bounds(self.width as int, self.height as int, x, y) implies (#[trigger] g[x][y]).x
                == x && g[x][y].y == y by {
                assert(g0[x].len() == self.height);
                assert(g0[x][y].x == x);
            }
        }
    }
}

} // verus!
