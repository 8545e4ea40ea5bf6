use vstd::prelude::*;

use crate::board::Board;
use crate::game::{GameState, GameValues};
use crate::grid::{neighbor, count_tiles, counts_consistent, covered_blank, grid_update, grid_wf, mine_at, mines_around, mines_in_block, mines_in_column, hidden_blanks, in_bounds, lemma_count_tiles_update, unrevealed};
use crate::tile_states::{Tile, TileState};

verus! {

/// A tile that a reveal acts on: on the board, neither uncovered nor flagged.
pub open spec fn openable(g: Seq<Seq<Tile>>, w: int, h: int, p: (int, int)) -> bool {
    &&& in_bounds(w, h, p.0, p.1)
    &&& !g[p.0][p.1].tile.is_revealed()
    &&& !g[p.0][p.1].tile.is_flagged()
}

/// Two different tiles that touch, sideways or diagonally.
pub open spec fn adjacent(p: (int, int), q: (int, int)) -> bool {
    &&& p != q
    &&& -1 <= q.0 - p.0 <= 1
    &&& -1 <= q.1 - p.1 <= 1
}

/// A tile with no mine around it: uncovering it uncovers its neighbours too.
pub open spec fn spreads(g: Seq<Seq<Tile>>, p: (int, int)) -> bool {
    g[p.0][p.1].surrounding_mines == 0
}

/// A set of tiles that a reveal started at `s` cannot leave: it holds `s` if
/// `s` can be uncovered, and with every uncoverable tile that spreads it holds
/// all its uncoverable neighbours.
pub open spec fn closed_under_spread(
    g: Seq<Seq<Tile>>,
    w: int,
    h: int,
    s: (int, int),
    c: Set<(int, int)>,
) -> bool {
    &&& openable(g, w, h, s) ==> c.contains(s)
    &&& forall|p: (int, int), q: (int, int)|
        #![trigger c.contains(p), c.contains(q)]
        c.contains(p) && openable(g, w, h, p) && spreads(g, p) && adjacent(p, q) && openable(
            g,
            w,
            h,
            q,
        ) ==> c.contains(q)
}

/// The tiles that a reveal at `s` uncovers: the least set closed under spreading.
pub open spec fn region(g: Seq<Seq<Tile>>, w: int, h: int, s: (int, int)) -> Set<(int, int)> {
    Set::new(
        |p: (int, int)|
            forall|c: Set<(int, int)>| #[trigger] closed_under_spread(g, w, h, s, c) ==> c.contains(p),
    )
}

/// A tile after it has been uncovered.
pub open spec fn uncovered_tile(t: Tile) -> Tile {
    Tile { tile: t.tile.revealed(t.surrounding_mines), ..t }
}

/// The grid with the tiles of `n` uncovered.
pub open spec fn uncover_all(g: Seq<Seq<Tile>>, n: Set<(int, int)>) -> Seq<Seq<Tile>> {
    Seq::new(
        g.len(),
        |x: int|
            Seq::new(
                g[x].len(),
                |y: int|
                    if n.contains((x, y)) {
                        uncovered_tile(g[x][y])
                    } else {
                        g[x][y]
                    },
            ),
    )
}

/// The game state after the tiles of `n` have been uncovered, one by one,
/// starting in `state`: a lost or finished game stays as it is, and so does
/// any game when nothing is uncovered; otherwise uncovering a mine loses the
/// game and uncovering only blanks puts it in play.
pub open spec fn state_after(state: GameState, g: Seq<Seq<Tile>>, n: Set<(int, int)>) -> GameState {
    if state == GameState::Lose || state == GameState::End || !(exists|p: (int, int)|
        n.contains(p)) {
        state
    } else if exists|p: (int, int)| n.contains(p) && g[p.0][p.1].tile.is_mine() {
        GameState::Lose
    } else {
        GameState::Playing
    }
}

pub open spec fn pos(p: (usize, usize)) -> (int, int) {
    (p.0 as int, p.1 as int)
}

pub open spec fn listed(st: Seq<(usize, usize)>, p: (int, int)) -> bool {
    exists|i: int| 0 <= i < st.len() && pos(#[trigger] st[i]) == p
}

/// Every uncoverable neighbour of `p` is in `n`.
pub open spec fn handled(g: Seq<Seq<Tile>>, w: int, h: int, n: Set<(int, int)>, p: (int, int)) -> bool {
    forall|q: (int, int)| adjacent(p, q) && openable(g, w, h, q) ==> #[trigger] n.contains(q)
}

/// Where q lies among the nine tiles of the block centred on p, column by column.
pub open spec fn offset_rank(p: (int, int), q: (int, int)) -> int {
    (q.0 - p.0 + 1) * 3 + (q.1 - p.1 + 1)
}

/// Uncovers one tile of the cascade and records it.
fn uncover_one(
    board: &mut Board,
    game_values: &mut GameValues,
    qx: usize,
    qy: usize,
    Ghost(g0): Ghost<Seq<Seq<Tile>>>,
    Ghost(n): Ghost<Set<(int, int)>>,
    Ghost(state0): Ghost<GameState>,
    Ghost(blanks0): Ghost<int>,
)
    requires
        old(board).wf(),
        grid_wf(g0, old(board).spec_width(), old(board).spec_height()),
        old(board).cells() == uncover_all(g0, n),
        openable(g0, old(board).spec_width(), old(board).spec_height(), (qx as int, qy as int)),
        !n.contains((qx as int, qy as int)),
        forall|p: (int, int)|
            n.contains(p) ==> openable(g0, old(board).spec_width(), old(board).spec_height(), p),
        old(game_values).state == state_after(state0, g0, n),
        old(game_values).remaining_blanks == blanks0 - (hidden_blanks(g0) - hidden_blanks(
            old(board).cells(),
        )),
        blanks0 - hidden_blanks(g0) >= i32::MIN,
    ensures
        final(board).wf(),
        final(board).spec_width() == old(board).spec_width(),
        final(board).spec_height() == old(board).spec_height(),
        final(board).cells() == uncover_all(g0, n.insert((qx as int, qy as int))),
        final(game_values).state == state_after(state0, g0, n.insert((qx as int, qy as int))),
        final(game_values).remaining_blanks == blanks0 - (hidden_blanks(g0) - hidden_blanks(
            final(board).cells(),
        )),
        final(game_values).tile_size == old(game_values).tile_size,
        count_tiles(final(board).cells(), unrevealed()) + 1 == count_tiles(
            old(board).cells(),
            unrevealed(),
        ),
{
    let ghost q = (qx as int, qy as int);
    let ghost g1 = board.cells();
    let t = board.tile(qx, qy);
    assert(t == g0[qx as int][qy as int]);
    let mut state = t.tile;
    let outcome = state.reveal_tile(t.surrounding_mines);
    match game_values.state {
        GameState::Lose | GameState::End => {},
        _ => {
            game_values.state = outcome;
        },
    }
    proof {
        lemma_count_tiles_update(g1, covered_blank(), qx as int, qy as int, uncovered_tile(t));
        lemma_count_tiles_update(g1, unrevealed(), qx as int, qy as int, uncovered_tile(t));
    }
    if !state.is_mine() {
        game_values.remaining_blanks = game_values.remaining_blanks - 1;
    }
    board.set_tile_state(qx, qy, state);
    proof {
        let n2 = n.insert(q);
        assert(board.cells() =~~= uncover_all(g0, n2));
        assert(n2.contains(q));
        if exists|p: (int, int)| n.contains(p) && g0[p.0][p.1].tile.is_mine() {
            let p = choose|p: (int, int)| n.contains(p) && g0[p.0][p.1].tile.is_mine();
            assert(n2.contains(p));
        }
        if t.tile.is_mine() {
            assert(n2.contains(q) && g0[q.0][q.1].tile.is_mine());
        } else {
            if exists|p: (int, int)| n2.contains(p) && g0[p.0][p.1].tile.is_mine() {
                let p = choose|p: (int, int)| n2.contains(p) && g0[p.0][p.1].tile.is_mine();
                assert(n.contains(p));
            }
        }
    }
}

/// Reveals the tile at (x, y) and, as long as an uncovered tile has no mine
/// around it, all of its neighbours, as one click does in the game.  Flagged
/// and already uncovered tiles are left alone.  Each uncovered blank lowers the
/// count of remaining blanks by one; uncovering a mine loses the game unless it
/// is already lost or over.  Returns the uncovered tiles, each once.
pub fn reveal_tiles(board: &mut Board, game_values: &mut GameValues, x: usize, y: usize) -> (revealed:
    Vec<(usize, usize)>)
    requires
        old(board).wf(),
        in_bounds(old(board).spec_width(), old(board).spec_height(), x as int, y as int),
        old(game_values).remaining_blanks - hidden_blanks(old(board).cells()) >= i32::MIN,
    ensures
        final(board).wf(),
        final(board).spec_width() == old(board).spec_width(),
        final(board).spec_height() == old(board).spec_height(),
        final(board).cells() == uncover_all(
            old(board).cells(),
            region(
                old(board).cells(),
                old(board).spec_width(),
                old(board).spec_height(),
                (x as int, y as int),
            ),
        ),
        final(game_values).state == state_after(
            old(game_values).state,
            old(board).cells(),
            region(
                old(board).cells(),
                old(board).spec_width(),
                old(board).spec_height(),
                (x as int, y as int),
            ),
        ),
        final(game_values).remaining_blanks == old(game_values).remaining_blanks - (hidden_blanks(
            old(board).cells(),
        ) - hidden_blanks(final(board).cells())),
        final(game_values).tile_size == old(game_values).tile_size,
        forall|i: int|
            0 <= i < revealed.len() ==> region(
                old(board).cells(),
                old(board).spec_width(),
                old(board).spec_height(),
                (x as int, y as int),
            ).contains(pos(#[trigger] revealed[i])),
        forall|p: (int, int)|
            region(
                old(board).cells(),
                old(board).spec_width(),
                old(board).spec_height(),
                (x as int, y as int),
            ).contains(p) ==> listed(revealed@, p),
        forall|i: int, j: int| 0 <= i < j < revealed.len() ==> revealed[i] != revealed[j],
{
    let ghost g0 = board.cells();
    let ghost w = board.spec_width();
    let ghost h = board.spec_height();
    let ghost s = (x as int, y as int);
    let ghost state0 = game_values.state;
    let ghost blanks0 = game_values.remaining_blanks as int;
    let ghost tile0 = game_values.tile_size;
    let ghost mut n: Set<(int, int)> = Set::empty();
    let mut stack: Vec<(usize, usize)> = Vec::new();
    let mut revealed: Vec<(usize, usize)> = Vec::new();
    assert(board.cells() =~~= uncover_all(g0, n));
    let width = board.width();
    let height = board.height();
    let start = board.tile(x, y);
    if !start.tile.is_revealed() && !start.tile.is_flagged() {
        uncover_one(board, game_values, x, y, Ghost(g0), Ghost(n), Ghost(state0), Ghost(blanks0));
        proof {
            n = n.insert(s);
            assert forall|c: Set<(int, int)>| #[trigger]
                closed_under_spread(g0, w, h, s, c) implies n.subset_of(c) by {}
        }
        revealed.push((x, y));
        proof {
            assert(pos(revealed@[0]) == s);
        }
        if start.surrounding_mines == 0 {
            stack.push((x, y));
            proof {
                assert(pos(stack@[0]) == s);
            }
        }
    }
    while stack.len() > 0
        invariant
            board.wf(),
            board.spec_width() == w,
            board.spec_height() == h,
            width == w,
            height == h,
            grid_wf(g0, w, h),
            board.cells() == uncover_all(g0, n),
            forall|p: (int, int)| #[trigger] n.contains(p) ==> openable(g0, w, h, p),
            openable(g0, w, h, s) ==> n.contains(s),
            forall|c: Set<(int, int)>| #[trigger]
                closed_under_spread(g0, w, h, s, c) ==> n.subset_of(c),
            forall|i: int|
                0 <= i < stack.len() ==> n.contains(pos(#[trigger] stack@[i])) && spreads(
                    g0,
                    pos(stack@[i]),
                ),
            forall|p: (int, int)|
                #[trigger] n.contains(p) && spreads(g0, p) ==> handled(g0, w, h, n, p) || listed(
                    stack@,
                    p,
                ),
            game_values.state == state_after(state0, g0, n),
            game_values.remaining_blanks == blanks0 - (hidden_blanks(g0) - hidden_blanks(
                board.cells(),
            )),
            game_values.tile_size == tile0,
            blanks0 - hidden_blanks(g0) >= i32::MIN,
            forall|i: int| 0 <= i < revealed.len() ==> n.contains(pos(#[trigger] revealed@[i])),
            forall|p: (int, int)| #[trigger] n.contains(p) ==> listed(revealed@, p),
            forall|i: int, j: int| 0 <= i < j < revealed.len() ==> revealed@[i] != revealed@[j],
        decreases 9 * count_tiles(board.cells(), unrevealed()) + stack.len(),
    {
        let ghost stack_before = stack@;
        let cur = stack.pop().unwrap();
        let ghost cp = pos(cur);
        let ghost len_after_pop = stack.len() as int;
        let ghost u_pop = count_tiles(board.cells(), unrevealed()) as int;
        proof {
            assert(stack_before[stack_before.len() - 1] == cur);
            assert(n.contains(pos(stack_before[stack_before.len() - 1])));
            assert forall|p: (int, int)| #[trigger]
                n.contains(p) && spreads(g0, p) implies handled(g0, w, h, n, p) || listed(
                stack@,
                p,
            ) || p == cp by {
                if !handled(g0, w, h, n, p) {
                    assert(listed(stack_before, p));
                    let i = choose|i: int|
                        0 <= i < stack_before.len() && pos(#[trigger] stack_before[i]) == p;
                    if i < stack@.len() {
                        assert(stack@[i] == stack_before[i]);
                    }
                }
            }
        }
        let mut dx: usize = 0;
        while dx < 3
            invariant
                0 <= dx <= 3,
                board.wf(),
                board.spec_width() == w,
                board.spec_height() == h,
                width == w,
                height == h,
                grid_wf(g0, w, h),
                board.cells() == uncover_all(g0, n),
                forall|p: (int, int)| #[trigger] n.contains(p) ==> openable(g0, w, h, p),
                openable(g0, w, h, s) ==> n.contains(s),
                forall|c: Set<(int, int)>| #[trigger]
                    closed_under_spread(g0, w, h, s, c) ==> n.subset_of(c),
                forall|i: int|
                    0 <= i < stack.len() ==> n.contains(pos(#[trigger] stack@[i])) && spreads(
                        g0,
                        pos(stack@[i]),
                    ),
                forall|p: (int, int)|
                    #[trigger] n.contains(p) && spreads(g0, p) ==> handled(g0, w, h, n, p)
                        || listed(stack@, p) || p == cp,
                game_values.state == state_after(state0, g0, n),
                game_values.remaining_blanks == blanks0 - (hidden_blanks(g0) - hidden_blanks(
                    board.cells(),
                )),
                game_values.tile_size == tile0,
                blanks0 - hidden_blanks(g0) >= i32::MIN,
                forall|i: int| 0 <= i < revealed.len() ==> n.contains(pos(#[trigger] revealed@[i])),
                forall|p: (int, int)| #[trigger] n.contains(p) ==> listed(revealed@, p),
                forall|i: int, j: int| 0 <= i < j < revealed.len() ==> revealed@[i] != revealed@[j],
                cp == pos(cur),
                n.contains(cp),
                spreads(g0, cp),
                forall|q: (int, int)|
                    adjacent(cp, q) && openable(g0, w, h, q) && offset_rank(cp, q) < 3 * dx
                        ==> #[trigger] n.contains(q),
                stack.len() >= len_after_pop,
                stack.len() + count_tiles(board.cells(), unrevealed()) <= len_after_pop + u_pop,
            decreases 3 - dx,
        {
            let mut dy: usize = 0;
            while dy < 3
                invariant
                    0 <= dx < 3,
                    0 <= dy <= 3,
                    board.wf(),
                    board.spec_width() == w,
                    board.spec_height() == h,
                    width == w,
                    height == h,
                    grid_wf(g0, w, h),
                    board.cells() == uncover_all(g0, n),
                    forall|p: (int, int)| #[trigger] n.contains(p) ==> openable(g0, w, h, p),
                    openable(g0, w, h, s) ==> n.contains(s),
                    forall|c: Set<(int, int)>| #[trigger]
                        closed_under_spread(g0, w, h, s, c) ==> n.subset_of(c),
                    forall|i: int|
                        0 <= i < stack.len() ==> n.contains(pos(#[trigger] stack@[i])) && spreads(
                            g0,
                            pos(stack@[i]),
                        ),
                    forall|p: (int, int)|
                        #[trigger] n.contains(p) && spreads(g0, p) ==> handled(g0, w, h, n, p)
                            || listed(stack@, p) || p == cp,
                    game_values.state == state_after(state0, g0, n),
                    game_values.remaining_blanks == blanks0 - (hidden_blanks(g0) - hidden_blanks(
                        board.cells(),
                    )),
                    game_values.tile_size == tile0,
                    blanks0 - hidden_blanks(g0) >= i32::MIN,
                    forall|i: int|
                        0 <= i < revealed.len() ==> n.contains(pos(#[trigger] revealed@[i])),
                    forall|p: (int, int)| #[trigger] n.contains(p) ==> listed(revealed@, p),
                    forall|i: int, j: int|
                        0 <= i < j < revealed.len() ==> revealed@[i] != revealed@[j],
                    cp == pos(cur),
                    n.contains(cp),
                    spreads(g0, cp),
                    forall|q: (int, int)|
                        adjacent(cp, q) && openable(g0, w, h, q) && offset_rank(cp, q) < 3 * dx + dy
                            ==> #[trigger] n.contains(q),
                    stack.len() >= len_after_pop,
                    stack.len() + count_tiles(board.cells(), unrevealed()) <= len_after_pop + u_pop,
                decreases 3 - dy,
            {
                let ghost n_before = n;
                if dx != 1 || dy != 1 {
                    match (neighbor(cur.0, dx, width), neighbor(cur.1, dy, height)) {
                        (Some(qx), Some(qy)) => {
                            let t = board.tile(qx, qy);
                            let ghost q = (qx as int, qy as int);
                            if !t.tile.is_revealed() && !t.tile.is_flagged() {
                                assert(!n.contains(q));
                                uncover_one(
                                    board,
                                    game_values,
                                    qx,
                                    qy,
                                    Ghost(g0),
                                    Ghost(n),
                                    Ghost(state0),
                                    Ghost(blanks0),
                                );
                                let ghost stack_mid = stack@;
                                let ghost rev_before = revealed@;
                                proof {
                                    n = n.insert(q);
                                    assert forall|c: Set<(int, int)>| #[trigger]
                                        closed_under_spread(g0, w, h, s, c) implies n.subset_of(
                                        c,
                                    ) by {
                                        assert(n_before.subset_of(c));
                                        assert(c.contains(cp));
                                        assert(c.contains(q));
                                    }
                                }
                                revealed.push((qx, qy));
                                proof {
                                    assert(pos(revealed@[revealed@.len() - 1]) == q);
                                    assert forall|p: (int, int)| #[trigger]
                                        n.contains(p) implies listed(revealed@, p) by {
                                        if p != q {
                                            assert(listed(rev_before, p));
                                            let i = choose|i: int|
                                                0 <= i < rev_before.len() && pos(
                                                    #[trigger] rev_before[i],
                                                ) == p;
                                            assert(revealed@[i] == rev_before[i]);
                                        }
                                    }
                                }
                                if t.surrounding_mines == 0 {
                                    stack.push((qx, qy));
                                    proof {
                                        assert(pos(stack@[stack@.len() - 1]) == q);
                                    }
                                }
                                proof {
                                    assert forall|p: (int, int)| #[trigger]
                                        n.contains(p) && spreads(g0, p) implies handled(
                                        g0,
                                        w,
                                        h,
                                        n,
                                        p,
                                    ) || listed(stack@, p) || p == cp by {
                                        if p == q {
                                            assert(pos(stack@[stack@.len() - 1]) == q);
                                        } else if handled(g0, w, h, n_before, p) {
                                            assert forall|q2: (int, int)|
                                                adjacent(p, q2) && openable(
                                                    g0,
                                                    w,
                                                    h,
                                                    q2,
                                                ) implies #[trigger] n.contains(q2) by {
                                                assert(n_before.contains(q2));
                                            }
                                        } else if listed(stack_mid, p) {
                                            let i = choose|i: int|
                                                0 <= i < stack_mid.len() && pos(
                                                    #[trigger] stack_mid[i],
                                                ) == p;
                                            assert(stack@[i] == stack_mid[i]);
                                        }
                                    }
                                }
                            }
                        },
                        _ => {},
                    }
                }
                proof {
                    assert forall|q: (int, int)|
                        adjacent(cp, q) && openable(g0, w, h, q) && offset_rank(cp, q) < 3 * dx + dy
                            + 1 implies #[trigger] n.contains(q) by {
                        if offset_rank(cp, q) < 3 * dx + dy {
                            assert(n_before.contains(q));
                        } else {
                            assert(q.0 == cp.0 + dx - 1);
                            assert(q.1 == cp.1 + dy - 1);
                            if !n.contains(q) {
                                assert(board.cells()[q.0][q.1] == g0[q.0][q.1]);
                            }
                        }
                    }
                }
                dy = dy + 1;
            }
            dx = dx + 1;
        }
        proof {
            assert forall|p: (int, int)| #[trigger]
                n.contains(p) && spreads(g0, p) implies handled(g0, w, h, n, p) || listed(
                stack@,
                p,
            ) by {
                if p == cp {
                    assert forall|q: (int, int)|
                        adjacent(cp, q) && openable(g0, w, h, q) implies #[trigger] n.contains(
                        q,
                    ) by {
                        assert(offset_rank(cp, q) < 9);
                    }
                }
            }
        }
    }
    proof {
        let r = region(g0, w, h, s);
        assert forall|p: (int, int), q: (int, int)|
            #![trigger n.contains(p), n.contains(q)]
            n.contains(p) && openable(g0, w, h, p) && spreads(g0, p) && adjacent(p, q) && openable(
                g0,
                w,
                h,
                q,
            ) implies n.contains(q) by {
            assert(!listed(stack@, p));
        }
        assert(closed_under_spread(g0, w, h, s, n));
        assert forall|p: (int, int)| r.contains(p) implies n.contains(p) by {}
        assert forall|p: (int, int)| n.contains(p) implies r.contains(p) by {
            assert forall|c: Set<(int, int)>| #[trigger]
                closed_under_spread(g0, w, h, s, c) implies c.contains(p) by {
                assert(n.subset_of(c));
            }
        }
        assert(n =~= r);
    }
    revealed
}

/// The pointer buttons a tile reacts to.
#[derive(PartialEq, Eq, Structural, Clone, Copy)]
pub enum PointerButton {
    Primary,
    Secondary,
    Middle,
}

/// What a press on a tile asks for.
#[derive(PartialEq, Eq, Structural, Clone, Copy)]
pub enum ClickAction {
    /// Reveal the tile.
    Reveal,
    /// Toggle the flag on the tile.
    Flag,
    /// Nothing happens.
    Ignore,
}

/// Decides what a press on a tile does: while the game is in play the
/// primary button reveals and the secondary button flags; otherwise, and for
/// any other button, nothing happens.
pub fn click(game_values: &GameValues, button: PointerButton) -> (action: ClickAction)
    ensures
        action == if game_values.state != GameState::Playing {
            ClickAction::Ignore
        } else {
            match button {
                PointerButton::Primary => ClickAction::Reveal,
                PointerButton::Secondary => ClickAction::Flag,
                PointerButton::Middle => ClickAction::Ignore,
            }
        },
{
    if game_values.state != GameState::Playing {
        return ClickAction::Ignore;
    }
    match button {
        PointerButton::Primary => ClickAction::Reveal,
        PointerButton::Secondary => ClickAction::Flag,
        _ => ClickAction::Ignore,
    }
}

/// Toggles the flag on the tile at (x, y) and tells whether it now carries one.
pub fn flag(board: &mut Board, x: usize, y: usize) -> (flagged: bool)
    requires
        old(board).wf(),
        in_bounds(old(board).spec_width(), old(board).spec_height(), x as int, y as int),
    ensures
        final(board).wf(),
        final(board).spec_width() == old(board).spec_width(),
        final(board).spec_height() == old(board).spec_height(),
        final(board).cells() == grid_update(
            old(board).cells(),
            x as int,
            y as int,
            Tile { tile: old(board).cell(x as int, y as int).tile.toggled(), ..old(board).cell(x as int, y as int) },
        ),
        flagged == old(board).cell(x as int, y as int).tile.toggled().is_flagged(),
{
    let t = board.tile(x, y);
    let mut state = t.tile;
    state.toggle_flag();
    board.set_tile_state(x, y, state);
    state.is_flagged()
}

/// Whether hovering over the tile highlights it: covered tiles and numbered
/// tiles are highlighted.
pub fn hover(tile: &Tile) -> (highlight: bool)
    ensures
        highlight == (!tile.tile.is_revealed() || tile.tile is RevealedNumber),
{
    !tile.tile.is_revealed() || matches!(tile.tile, TileState::RevealedNumber(_))
}

/// A tile in the 3x3 block around p holds no more mines than the block.
pub proof fn lemma_mine_in_block(g: Seq<Seq<Tile>>, p: (int, int), q: (int, int))
    requires
        -1 <= q.0 - p.0 <= 1,
        -1 <= q.1 - p.1 <= 1,
    ensures
        mine_at(g, q.0, q.1) <= mines_around(g, p.0, p.1),
{
    reveal_with_fuel(mines_in_block, 4);
    reveal_with_fuel(mines_in_column, 4);
}

/// On a board whose counts are right, a mine counts itself, so a mine never
/// spreads a reveal.
pub proof fn lemma_mine_counts_itself(g: Seq<Seq<Tile>>, w: int, h: int, p: (int, int))
    requires
        grid_wf(g, w, h),
        counts_consistent(g),
        in_bounds(w, h, p.0, p.1),
        g[p.0][p.1].tile.is_mine(),
    ensures
        g[p.0][p.1].surrounding_mines >= 1,
        !spreads(g, p),
{
    lemma_mine_in_block(g, p, p);
    assert(g[p.0].len() == h);
}

/// A reveal only uncovers tiles that are on the board, covered and unflagged:
/// flags protect their tiles.
pub proof fn lemma_region_only_openable(g: Seq<Seq<Tile>>, w: int, h: int, s: (int, int))
    ensures
        forall|p: (int, int)| #[trigger] region(g, w, h, s).contains(p) ==> openable(g, w, h, p),
{
    let c = Set::new(|p: (int, int)| openable(g, w, h, p));
    assert(closed_under_spread(g, w, h, s, c));
}

/// A reveal on a covered, unflagged tile uncovers that tile.
pub proof fn lemma_start_uncovered(g: Seq<Seq<Tile>>, w: int, h: int, s: (int, int))
    requires
        openable(g, w, h, s),
    ensures
        region(g, w, h, s).contains(s),
{
}

/// Revealing the same tile a second time changes nothing: no tile is
/// uncovered, the grid and the game state stay as they are.
pub proof fn lemma_reveal_twice(g: Seq<Seq<Tile>>, w: int, h: int, s: (int, int), state: GameState)
    requires
        grid_wf(g, w, h),
        in_bounds(w, h, s.0, s.1),
    ensures
        ({
            let g1 = uncover_all(g, region(g, w, h, s));
            &&& region(g1, w, h, s) =~= Set::<(int, int)>::empty()
            &&& uncover_all(g1, region(g1, w, h, s)) =~~= g1
            &&& state_after(state, g1, region(g1, w, h, s)) == state
        }),
{
    let r = region(g, w, h, s);
    let g1 = uncover_all(g, r);
    lemma_region_only_openable(g, w, h, s);
    if r.contains(s) {
        assert(openable(g, w, h, s));
        assert(g1[s.0][s.1] == uncovered_tile(g[s.0][s.1]));
    } else {
        assert(!openable(g, w, h, s));
    }
    assert(!openable(g1, w, h, s));
    let e = Set::<(int, int)>::empty();
    assert(closed_under_spread(g1, w, h, s, e));
    assert forall|p: (int, int)| !region(g1, w, h, s).contains(p) by {
        if region(g1, w, h, s).contains(p) {
            assert(e.contains(p));
        }
    }
    assert(region(g1, w, h, s) =~= e);
    assert(uncover_all(g1, e) =~~= g1);
}

/// On a board whose counts are right, a reveal started on a tile without a
/// mine uncovers no mine, so it cannot lose the game.
pub proof fn lemma_no_mine_uncovered(g: Seq<Seq<Tile>>, w: int, h: int, s: (int, int), state: GameState)
    requires
        grid_wf(g, w, h),
        counts_consistent(g),
        in_bounds(w, h, s.0, s.1),
        !g[s.0][s.1].tile.is_mine(),
    ensures
        forall|p: (int, int)| #[trigger] region(g, w, h, s).contains(p) ==> !g[p.0][p.1].tile.is_mine(),
        state != GameState::Lose ==> state_after(state, g, region(g, w, h, s)) != GameState::Lose,
{
    let c = Set::new(|p: (int, int)| openable(g, w, h, p) && !g[p.0][p.1].tile.is_mine());
    assert forall|p: (int, int), q: (int, int)|
        #![trigger c.contains(p), c.contains(q)]
        c.contains(p) && openable(g, w, h, p) && spreads(g, p) && adjacent(p, q) && openable(g, w, h, q)
            implies c.contains(q) by {
        lemma_mine_in_block(g, p, q);
        assert(g[q.0].len() == h);
        assert(g[p.0].len() == h);
    }
    assert(closed_under_spread(g, w, h, s, c));
    let r = region(g, w, h, s);
    assert forall|p: (int, int)| #[trigger] r.contains(p) implies !g[p.0][p.1].tile.is_mine() by {
        assert(c.contains(p));
    }
}

/// Toggling a flag leaves the number of covered blank tiles as it is.
pub proof fn lemma_flag_keeps_hidden_blanks(g: Seq<Seq<Tile>>, w: int, h: int, x: int, y: int)
    requires
        grid_wf(g, w, h),
        in_bounds(w, h, x, y),
    ensures
        hidden_blanks(grid_update(g, x, y, Tile { tile: g[x][y].tile.toggled(), ..g[x][y] }))
            == hidden_blanks(g),
{
    lemma_count_tiles_update(g, covered_blank(), x, y, Tile { tile: g[x][y].tile.toggled(), ..g[x][y] });
}

/// A reveal keeps the count of remaining blanks equal to the number of
/// covered blank tiles when it was equal before.
pub proof fn lemma_reveal_keeps_remaining_blanks(g: Seq<Seq<Tile>>, w: int, h: int, s: (int, int), remaining_blanks: int)
    requires
        remaining_blanks == hidden_blanks(g),
    ensures
        remaining_blanks - (hidden_blanks(g) - hidden_blanks(uncover_all(g, region(g, w, h, s))))
            == hidden_blanks(uncover_all(g, region(g, w, h, s))),
{
}

/// What a reveal uncovers is itself closed under spreading: after a reveal,
/// every uncovered tile without mines around it has all its coverable
/// neighbours uncovered too.
pub proof fn lemma_region_closed(g: Seq<Seq<Tile>>, w: int, h: int, s: (int, int))
    ensures
        closed_under_spread(g, w, h, s, region(g, w, h, s)),
{
    let r = region(g, w, h, s);
    assert forall|p: (int, int), q: (int, int)|
        #![trigger r.contains(p), r.contains(q)]
        r.contains(p) && openable(g, w, h, p) && spreads(g, p) && adjacent(p, q) && openable(g, w, h, q)
            implies r.contains(q) by {
        assert forall|c: Set<(int, int)>| #[trigger] closed_under_spread(g, w, h, s, c) implies c.contains(q) by {
            assert(c.contains(p));
        }
    }
}

/// A reveal on a covered tile with mines around it uncovers that tile alone.
pub proof fn lemma_number_uncovers_itself_only(g: Seq<Seq<Tile>>, w: int, h: int, s: (int, int))
    requires
        openable(g, w, h, s),
        !spreads(g, s),
    ensures
        region(g, w, h, s) =~= Set::<(int, int)>::empty().insert(s),
{
    let one = Set::<(int, int)>::empty().insert(s);
    assert(closed_under_spread(g, w, h, s, one));
    assert forall|p: (int, int)| #[trigger] region(g, w, h, s).contains(p) implies p == s by {
        assert(one.contains(p));
    }
}

/// A tile uncovered by a reveal keeps its place and count; a blank shows its
/// count (plain when zero, otherwise a number carrying exactly that count),
/// a mine shows as an uncovered mine.
pub proof fn lemma_uncovered_tile_shows_count(t: Tile)
    requires
        !t.tile.is_revealed(),
        !t.tile.is_flagged(),
    ensures
        uncovered_tile(t).x == t.x,
        uncovered_tile(t).y == t.y,
        uncovered_tile(t).surrounding_mines == t.surrounding_mines,
        uncovered_tile(t).tile.is_revealed(),
        !t.tile.is_mine() && t.surrounding_mines == 0 ==> uncovered_tile(t).tile == TileState::RevealedBlank,
        !t.tile.is_mine() && t.surrounding_mines > 0 ==> uncovered_tile(t).tile == TileState::RevealedNumber(
            t.surrounding_mines,
        ),
        t.tile.is_mine() ==> uncovered_tile(t).tile == TileState::RevealedMine,
{
}

/// Revealing a covered, unflagged mine in a game neither lost nor over loses it.
pub proof fn lemma_reveal_mine_loses(g: Seq<Seq<Tile>>, w: int, h: int, s: (int, int), state: GameState)
    requires
        openable(g, w, h, s),
        g[s.0][s.1].tile.is_mine(),
        state != GameState::End,
    ensures
        state_after(state, g, region(g, w, h, s)) == GameState::Lose,
{
    lemma_start_uncovered(g, w, h, s);
    let r = region(g, w, h, s);
    assert(r.contains(s) && g[s.0][s.1].tile.is_mine());
}

/// A reveal that uncovers only blanks in a game neither lost nor over puts
/// the game in play; one that uncovers nothing leaves the state alone.
pub proof fn lemma_reveal_blanks_plays(g: Seq<Seq<Tile>>, w: int, h: int, s: (int, int), state: GameState)
    requires
        state != GameState::Lose,
        state != GameState::End,
    ensures
        openable(g, w, h, s) && (forall|p: (int, int)| #[trigger] region(g, w, h, s).contains(p)
            ==> !g[p.0][p.1].tile.is_mine()) ==> state_after(state, g, region(g, w, h, s))
            == GameState::Playing,
        !openable(g, w, h, s) ==> state_after(state, g, region(g, w, h, s)) == state,
{
    if openable(g, w, h, s) {
        lemma_start_uncovered(g, w, h, s);
    } else {
        lemma_region_only_openable(g, w, h, s);
        assert forall|p: (int, int)| !region(g, w, h, s).contains(p) by {
            if region(g, w, h, s).contains(p) {
                assert(openable(g, w, h, p));
                if p != s {
                    let c = Set::<(int, int)>::empty();
                    assert(closed_under_spread(g, w, h, s, c));
                }
            }
        }
    }
}

} // verus!
