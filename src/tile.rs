use vstd::prelude::*;

use crate::text::{decimal, painted, painted_decimal, Hue};

verus! {

/// What a cell is. Fixed when the board is generated and never changed after.
#[derive(Clone, Copy, Debug, PartialEq, Eq, Structural)]
pub enum TileType {
    Empty,
    Bomb,
    /// A safe cell with this many mines among its eight neighbours.
    Neighbour(u8),
}

/// What the player sees of a cell.
#[derive(Clone, Copy, Debug, PartialEq, Eq, Structural)]
pub enum TileState {
    Hidden,
    Revealed,
    Flagged,
    /// A mine that was revealed: the game is lost.
    Exploded,
}

/// One cell of the board.
#[derive(Clone, Copy, Debug, PartialEq, Eq, Structural)]
pub struct Tile {
    pub kind: TileType,
    pub state: TileState,
}

/// The colour in which a neighbour count is drawn.
pub open spec fn count_hue(n: u8) -> Hue {
    if n == 1 {
        Hue::Cyan
    } else if n == 2 {
        Hue::Green
    } else if n == 3 {
        Hue::Yellow
    } else {
        Hue::Red
    }
}

/// The glyphs with which a kind may be drawn on a terminal.
pub open spec fn glyphs(kind: TileType) -> Set<Seq<char>> {
    match kind {
        TileType::Empty => set![seq![' ']],
        TileType::Bomb => set![seq!['*']],
        TileType::Neighbour(n) => painted(count_hue(n), decimal(n as nat)),
    }
}

/// The state after a reveal: a hidden mine explodes, another hidden cell is
/// revealed, and a revealed, flagged or exploded cell stays as it is.
pub open spec fn revealed_state(t: Tile) -> TileState {
    if t.state is Hidden {
        if t.kind is Bomb {
            TileState::Exploded
        } else {
            TileState::Revealed
        }
    } else {
        t.state
    }
}

/// The state after a reveal that never explodes: only a hidden cell changes.
pub open spec fn opened(s: TileState) -> TileState {
    if s is Hidden {
        TileState::Revealed
    } else {
        s
    }
}

/// The state after a flag toggle: hidden and flagged swap, the others stay.
pub open spec fn toggled(s: TileState) -> TileState {
    match s {
        TileState::Hidden => TileState::Flagged,
        TileState::Flagged => TileState::Hidden,
        _ => s,
    }
}

/// The moves of a cell's state that the game allows: none, hidden to
/// revealed, flagged or exploded, and flagged back to hidden.
pub open spec fn legal_step(before: TileState, after: TileState) -> bool {
    ||| before == after
    ||| before is Hidden
    ||| (before is Flagged && after is Hidden)
}

impl TileType {
    pub fn is_bomb(&self) -> (r: bool)
        ensures
            r == (*self is Bomb),
    {
        matches!(self, TileType::Bomb)
    }

    pub fn is_empty(&self) -> (r: bool)
        ensures
            r == (*self is Empty),
    {
        matches!(self, TileType::Empty)
    }

    pub fn is_neighbour(&self) -> (r: bool)
        ensures
            r == (*self is Neighbour),
    {
        matches!(self, TileType::Neighbour(_))
    }

    /// The glyph of this kind on a debug dump: a blank for an empty cell, `*`
    /// for a mine, and the neighbour count in decimal, coloured by its value
    /// when the terminal takes colours.
    pub fn console_draw(&self) -> (r: String)
        ensures
            glyphs(*self).contains(r@),
    {
        match self {
            TileType::Empty => {
                proof { reveal_strlit(" "); }
                let r = String::from_str(" ");
                assert(r@ =~= seq![' ']);
                r
            },
            TileType::Bomb => {
                proof { reveal_strlit("*"); }
                let r = String::from_str("*");
                assert(r@ =~= seq!['*']);
                r
            },
            TileType::Neighbour(n) => {
                let hue = if *n == 1 {
                    Hue::Cyan
                } else if *n == 2 {
                    Hue::Green
                } else if *n == 3 {
                    Hue::Yellow
                } else {
                    Hue::Red
                };
                painted_decimal(*n as u16, hue)
            },
        }
    }
}

impl Default for Tile {
    fn default() -> (r: Tile)
        ensures
            r.kind is Empty,
            r.state is Hidden,
    {
        Tile { kind: TileType::Empty, state: TileState::Hidden }
    }
}

impl Tile {
    /// Reveals the cell: a hidden mine explodes, any other hidden cell is
    /// revealed; a cell that is not hidden is left as it is.
    pub fn uncover(&mut self)
        ensures
            final(self).kind == old(self).kind,
            final(self).state == revealed_state(*old(self)),
            legal_step(old(self).state, final(self).state),
    {
        match (self.kind, self.state) {
            (TileType::Bomb, TileState::Hidden) => {
                self.state = TileState::Exploded;
            },
            (_, TileState::Hidden) => {
                self.state = TileState::Revealed;
            },
            _ => {},
        }
    }

    /// Reveals a hidden cell, mine or not, without exploding it.
    pub fn reveal_without_exploding(&mut self)
        ensures
            final(self).kind == old(self).kind,
            final(self).state == opened(old(self).state),
            legal_step(old(self).state, final(self).state),
    {
        if self.state == TileState::Hidden {
            self.state = TileState::Revealed;
        }
    }

    /// Flags a hidden cell, or takes the flag off a flagged one; a revealed
    /// or exploded cell is left as it is.
    pub fn toggle_flag(&mut self)
        ensures
            final(self).kind == old(self).kind,
            final(self).state == toggled(old(self).state),
            legal_step(old(self).state, final(self).state),
    {
        match self.state {
            TileState::Hidden => {
                self.state = TileState::Flagged;
            },
            TileState::Flagged => {
                self.state = TileState::Hidden;
            },
            _ => {},
        }
    }

    pub fn is_bomb(&self) -> (r: bool)
        ensures
            r == (self.kind is Bomb),
    {
        self.kind.is_bomb()
    }

    pub fn is_empty(&self) -> (r: bool)
        ensures
            r == (self.kind is Empty),
    {
        self.kind.is_empty()
    }

    /// The glyph of this cell's kind on a debug dump, whatever its state.
    pub fn console_draw(&self) -> (r: String)
        ensures
            glyphs(self.kind).contains(r@),
    {
        self.kind.console_draw()
    }
}

} // verus!
