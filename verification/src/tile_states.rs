use vstd::prelude::*;

use crate::game::GameState;

verus! {

/// What a single tile of the board is showing and what lies under it.
#[derive(PartialEq, Eq, Structural, Clone, Copy)]
pub enum TileState {
    HiddenMine,
    HiddenBlank,
    RevealedMine,
    RevealedBlank,
    FlaggedMine,
    FlaggedBlank,
    RevealedNumber(u8),
}

impl TileState {
    /// The state a tile is in after it has been revealed, given the number of
    /// mines counted around it.  Only hidden tiles change.
    pub open spec fn revealed(self, surrounding_mines: u8) -> TileState {
        match self {
            TileState::HiddenMine => TileState::RevealedMine,
            TileState::HiddenBlank => if surrounding_mines == 0 {
                TileState::RevealedBlank
            } else {
                TileState::RevealedNumber(surrounding_mines)
            },
            _ => self,
        }
    }

    /// The game state that revealing this tile leads to.
    pub open spec fn reveal_outcome(self) -> GameState {
        match self {
            TileState::HiddenMine => GameState::Lose,
            _ => GameState::Playing,
        }
    }

    pub open spec fn spec_is_revealed(self) -> bool {
        match self {
            TileState::RevealedMine | TileState::RevealedBlank | TileState::RevealedNumber(_) => true,
            _ => false,
        }
    }

    pub open spec fn spec_is_mine(self) -> bool {
        match self {
            TileState::HiddenMine | TileState::FlaggedMine | TileState::RevealedMine => true,
            _ => false,
        }
    }

    pub open spec fn spec_is_flagged(self) -> bool {
        match self {
            TileState::FlaggedMine | TileState::FlaggedBlank => true,
            _ => false,
        }
    }

    /// The state after a flag toggle: hidden tiles get a flag, flagged tiles
    /// lose it, revealed tiles stay as they are.
    pub open spec fn toggled(self) -> TileState {
        match self {
            TileState::HiddenMine => TileState::FlaggedMine,
            TileState::HiddenBlank => TileState::FlaggedBlank,
            TileState::FlaggedMine => TileState::HiddenMine,
            TileState::FlaggedBlank => TileState::HiddenBlank,
            _ => self,
        }
    }

    /// Reveals the tile and returns the game state it leads to: a hidden mine
    /// loses the game, anything else keeps it going.
    pub fn reveal_tile(&mut self, surrounding_mines: u8) -> (state: GameState)
        ensures
            *final(self) == old(self).revealed(surrounding_mines),
            state == old(self).reveal_outcome(),
    {
        match self {
            TileState::HiddenMine => {
                *self = TileState::RevealedMine;
                GameState::Lose
            },
            TileState::HiddenBlank => {
                if surrounding_mines == 0 {
                    *self = TileState::RevealedBlank;
                    return GameState::Playing;
                }
                *self = TileState::RevealedNumber(surrounding_mines);
                GameState::Playing
            },
            _ => GameState::Playing,
        }
    }

    #[verifier::when_used_as_spec(spec_is_revealed)]
    pub fn is_revealed(self) -> (b: bool)
        ensures
            b == self.spec_is_revealed(),
    {
        match self {
            TileState::RevealedMine | TileState::RevealedBlank | TileState::RevealedNumber(_) => true,
            _ => false,
        }
    }

    #[verifier::when_used_as_spec(spec_is_mine)]
    pub fn is_mine(self) -> (b: bool)
        ensures
            b == self.spec_is_mine(),
    {
        match self {
            TileState::HiddenMine | TileState::FlaggedMine | TileState::RevealedMine => true,
            _ => false,
        }
    }

    #[verifier::when_used_as_spec(spec_is_flagged)]
    pub fn is_flagged(self) -> (b: bool)
        ensures
            b == self.spec_is_flagged(),
    {
        match self {
            TileState::FlaggedMine | TileState::FlaggedBlank => true,
            _ => false,
        }
    }

    /// Puts a flag on a hidden tile or takes it off a flagged one.
    pub fn toggle_flag(&mut self)
        ensures
            *final(self) == old(self).toggled(),
    {
        *self = match self {
            TileState::HiddenMine => TileState::FlaggedMine,
            TileState::HiddenBlank => TileState::FlaggedBlank,
            TileState::FlaggedMine => TileState::HiddenMine,
            TileState::FlaggedBlank => TileState::HiddenBlank,
            _ => *self,
        }
    }
}

/// One tile of the board: its position, its state and the number of mines in
/// the three-by-three block centred on it (the tile itself included).
#[derive(Clone, Copy)]
pub struct Tile {
    pub x: usize,
    pub y: usize,
    pub tile: TileState,
    pub surrounding_mines: u8,
}

impl Tile {
    /// Whether the tile sits on the second shade of the chequered pattern.
    pub open spec fn alt_shade(self) -> bool {
        (self.x % 2 == 0) != (self.y % 2 == 0)
    }

    /// The colour of the tile as an sRGB hex code: green shades while it is
    /// covered, sand shades once uncovered, red for an uncovered mine.
    pub open spec fn color_hex(self) -> Seq<char> {
        match self.tile {
            TileState::HiddenBlank | TileState::HiddenMine | TileState::FlaggedBlank
            | TileState::FlaggedMine => if self.alt_shade() {
                "#a2d149"@
            } else {
                "#aad751"@
            },
            TileState::RevealedBlank | TileState::RevealedNumber(_) => if self.alt_shade() {
                "#d7b899"@
            } else {
                "#e5c29f"@
            },
            TileState::RevealedMine => "#ff0000"@,
        }
    }

    /// The hex code of the colour the tile is drawn in.
    pub fn get_color(&self) -> (color: &'static str)
        ensures
            color@ == self.color_hex(),
    {
        let alt_color = (self.x % 2 == 0) != (self.y % 2 == 0);
        match self.tile {
            TileState::HiddenBlank | TileState::HiddenMine | TileState::FlaggedBlank
            | TileState::FlaggedMine => {
                if alt_color {
                    "#a2d149"
                } else {
                    "#aad751"
                }
            },
            TileState::RevealedBlank | TileState::RevealedNumber(_) => {
                if alt_color {
                    "#d7b899"
                } else {
                    "#e5c29f"
                }
            },
            TileState::RevealedMine => "#ff0000",
        }
    }
}

/// Toggling the flag twice gives the tile back as it was.
pub proof fn lemma_toggle_flag_twice(t: TileState)
    ensures
        t.toggled().toggled() == t,
{
}

/// Toggling a flag neither moves a mine nor uncovers a tile, and on a covered
/// tile it puts the flag on or takes it off.
pub proof fn lemma_toggle_flag_keeps_contents(t: TileState)
    ensures
        t.toggled().is_mine() == t.is_mine(),
        t.toggled().is_revealed() == t.is_revealed(),
        !t.is_revealed() ==> t.toggled().is_flagged() == !t.is_flagged(),
        t.is_revealed() ==> t.toggled() == t,
{
}

/// Revealing keeps what lies under a tile, leaves flagged and uncovered
/// tiles as they are, uncovers every other tile, and a second reveal changes
/// nothing.
pub proof fn lemma_reveal_tile_laws(t: TileState, surrounding_mines: u8)
    ensures
        t.revealed(surrounding_mines).is_mine() == t.is_mine(),
        t.is_flagged() || t.is_revealed() ==> t.revealed(surrounding_mines) == t,
        !t.is_flagged() ==> t.revealed(surrounding_mines).is_revealed(),
        t.revealed(surrounding_mines).revealed(surrounding_mines) == t.revealed(surrounding_mines),
        t.reveal_outcome() == GameState::Lose <==> t == TileState::HiddenMine,
{
}

/// Revealing a covered, unflagged blank shows the number of mines around it:
/// a plain uncovered blank when there are none, otherwise a number carrying
/// exactly that count.  A covered mine turns into an uncovered mine and
/// loses the game; a blank keeps it going.
pub proof fn lemma_reveal_shows_count(n: u8)
    ensures
        n == 0 ==> TileState::HiddenBlank.revealed(n) == TileState::RevealedBlank,
        n > 0 ==> TileState::HiddenBlank.revealed(n) == TileState::RevealedNumber(n),
        forall|k: u8| TileState::HiddenBlank.revealed(n) == TileState::RevealedNumber(k) ==> k == n && k > 0,
        TileState::HiddenMine.revealed(n) == TileState::RevealedMine,
        TileState::HiddenBlank.reveal_outcome() == GameState::Playing,
        TileState::HiddenMine.reveal_outcome() == GameState::Lose,
{
}

/// Every tile is in exactly one of three conditions: covered, flagged or
/// uncovered; and it either holds a mine or it does not, as its name says.
pub proof fn lemma_tile_conditions(t: TileState)
    ensures
        t.is_revealed() ==> !t.is_flagged(),
        t.is_revealed() <==> (t == TileState::RevealedMine || t == TileState::RevealedBlank
            || t is RevealedNumber),
        t.is_flagged() <==> (t == TileState::FlaggedMine || t == TileState::FlaggedBlank),
        !t.is_revealed() && !t.is_flagged() <==> (t == TileState::HiddenMine || t
            == TileState::HiddenBlank),
        t.is_mine() <==> (t == TileState::HiddenMine || t == TileState::FlaggedMine || t
            == TileState::RevealedMine),
{
}

/// The colour of a covered tile, flagged or not, depends on its square alone,
/// never on what lies under it: "#aad751" where x and y have the same
/// parity, "#a2d149" where they differ.  Uncovered blanks and numbers are
/// sand of the same chequer, "#e5c29f" and "#d7b899", and an uncovered mine
/// is red.
pub proof fn lemma_tile_colors(t: Tile)
    ensures
        !t.tile.is_revealed() ==> t.color_hex() == if t.x % 2 == t.y % 2 {
            "#aad751"@
        } else {
            "#a2d149"@
        },
        t.tile.is_revealed() && !t.tile.is_mine() ==> t.color_hex() == if t.x % 2 == t.y % 2 {
            "#e5c29f"@
        } else {
            "#d7b899"@
        },
        t.tile == TileState::RevealedMine ==> t.color_hex() == "#ff0000"@,
        forall|s: TileState|
            !s.is_revealed() && !t.tile.is_revealed() ==> (Tile { tile: s, ..t }).color_hex()
                == t.color_hex(),
{
}

} // verus!
