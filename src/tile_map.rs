use vstd::prelude::*;

use crate::board_model::{
    bomb_pred, dashes, dump_drawn, dump_header, false_pred, hidden_pred, join, lemma_coords,
    lemma_index, lemma_listed_push, lemma_no_duplicates_concat, lemma_opened_compose, lemma_opened_keeps_lost,
    lemma_opened_legal, lemma_opened_one, lemma_opened_safe_cells, lemma_same_bombs,
    lemma_same_kinds_tile, row_drawn, true_pred, BoardModel,
};
use crate::coordinates::{adjacent, shifted, Coordinates};
use crate::counting::{
    count_where, lemma_count_congruent, lemma_count_le_len, lemma_count_none, lemma_count_push,
    lemma_count_update, one_if,
};
use crate::text::push_decimal;
use crate::tile::{glyphs, legal_step, opened, revealed_state, Tile, TileState, TileType};

verus! {

broadcast use {
    vstd::seq_lib::lemma_seq_contains_after_push,
    vstd::seq_lib::lemma_seq_empty_contains_nothing,
    vstd::seq_lib::lemma_seq_concat_contains_all_elements,
};

/// Why a board cannot be made as asked.
#[derive(Clone, Copy, Debug, PartialEq, Eq, Structural)]
pub enum BoardError {
    /// The width or the height is zero.
    EmptyDimension,
    /// There must be fewer mines than cells.
    TooManyBombs,
    /// A mine was asked for outside the board.
    BombOutOfBounds,
}

/// What a single reveal did.
#[derive(Clone, Copy, Debug, PartialEq, Eq, Structural)]
pub enum RevealResult {
    /// The position is off the board or its cell is not hidden: nothing
    /// changed.
    Unchanged,
    /// A safe cell was uncovered.
    Safe,
    /// A mine was uncovered and exploded: the game is lost.
    Mine,
}

/// Relies on `rand::random_range`: a value of `0..bound` drawn from the
/// thread's generator. It panics on an empty range, which `requires` rules out.
#[verifier::external_body]
fn random_below(bound: usize) -> (r: usize)
    requires
        bound > 0,
    ensures
        r < bound,
{
    rand::random_range(0..bound)
}

/// Removing position `r` by `swap_remove` keeps the other elements, each once.
proof fn lemma_swap_remove(s: Seq<usize>, r: int)
    requires
        s.no_duplicates(),
        0 <= r < s.len(),
    ensures
        ({
            let t = s.update(r, s.last()).drop_last();
            &&& t.no_duplicates()
            &&& forall|j: int| 0 <= j < t.len() ==> #[trigger] t[j] != s[r]
            &&& forall|j: int|
                0 <= j < t.len() ==> exists|k: int| 0 <= k < s.len() && #[trigger] t[j] == s[k]
        }),
{
    let t = s.update(r, s.last()).drop_last();
    assert forall|j: int| 0 <= j < t.len() implies exists|k: int|
        0 <= k < s.len() && #[trigger] t[j] == s[k] by {
        if j == r {
            assert(t[j] == s[s.len() - 1]);
        } else {
            assert(t[j] == s[j]);
        }
    }
}

fn contains_coord(v: &Vec<Coordinates>, c: Coordinates) -> (r: bool)
    ensures
        r == v@.contains(c),
{
    let mut i: usize = 0;
    while i < v.len()
        invariant
            i <= v@.len(),
            forall|j: int| 0 <= j < i ==> v@[j] != c,
        decreases v@.len() - i,
    {
        if v[i] == c {
            return true;
        }
        i += 1;
    }
    false
}

/// A board of mines, neighbour counts and what the player has uncovered.
pub struct TileMap {
    bomb_count: u16,
    width: u16,
    height: u16,
    tiles: Vec<Tile>,
}

impl View for TileMap {
    type V = BoardModel;

    closed spec fn view(&self) -> BoardModel {
        BoardModel {
            width: self.width as nat,
            height: self.height as nat,
            bomb_count: self.bomb_count as nat,
            tiles: self.tiles@,
        }
    }
}

impl TileMap {
    pub fn width(&self) -> (r: u16)
        ensures
            r == self@.width,
    {
        self.width
    }

    pub fn height(&self) -> (r: u16)
        ensures
            r == self@.height,
    {
        self.height
    }

    pub fn bomb_count(&self) -> (r: u16)
        ensures
            r == self@.bomb_count,
    {
        self.bomb_count
    }

    fn index(&self, c: Coordinates) -> (r: usize)
        requires
            self@.wf(),
            self@.in_bounds(c),
        ensures
            r == self@.index_of(c),
            r < self@.tiles.len(),
    {
        proof { lemma_index(self@, c); }
        assert(c.y as int * self.width as int <= 65535 * 65535) by (nonlinear_arith)
            requires
                c.y <= 65535,
                self.width <= 65535,
        ;
        c.y as usize * self.width as usize + c.x as usize
    }

    /// A board of `width` by `height` cells, all empty and hidden, with no
    /// mines yet.
    pub fn empty(width: u16, height: u16) -> (r: Result<TileMap, BoardError>)
        ensures
            match r {
                Ok(m) => {
                    &&& width > 0 && height > 0
                    &&& m@.wf()
                    &&& m@.width == width
                    &&& m@.height == height
                    &&& m@.bomb_count == 0
                    &&& forall|i: int|
                        0 <= i < m@.tiles.len() ==> #[trigger] m@.tiles[i] == (Tile {
                            kind: TileType::Empty,
                            state: TileState::Hidden,
                        })
                },
                Err(e) => e == BoardError::EmptyDimension && (width == 0 || height == 0),
            },
    {
        if width == 0 || height == 0 {
            return Err(BoardError::EmptyDimension);
        }
        assert(width as int * height as int <= 65535 * 65535) by (nonlinear_arith)
            requires
                width <= 65535,
                height <= 65535,
        ;
        let n: usize = width as usize * height as usize;
        let mut tiles: Vec<Tile> = Vec::new();
        while tiles.len() < n
            invariant
                tiles.len() <= n,
                forall|i: int|
                    0 <= i < tiles.len() ==> #[trigger] tiles@[i] == (Tile {
                        kind: TileType::Empty,
                        state: TileState::Hidden,
                    }),
            decreases n - tiles.len(),
        {
            tiles.push(Tile { kind: TileType::Empty, state: TileState::Hidden });
        }
        let m = TileMap { bomb_count: 0, width, height, tiles };
        proof {
            lemma_count_none(m@.kinds(), bomb_pred());
        }
        Ok(m)
    }

    pub fn coords_in_bounds(&self, coordinates: Coordinates) -> (r: bool)
        ensures
            r == self@.in_bounds(coordinates),
    {
        coordinates.x < self.width && coordinates.y < self.height
    }

    /// The cell at `coord`, or nothing where `coord` is off the board.
    pub fn at(&self, coord: Coordinates) -> (r: Option<&Tile>)
        requires
            self@.wf(),
        ensures
            match r {
                Some(t) => self@.in_bounds(coord) && *t == self@.tile(coord),
                None => !self@.in_bounds(coord),
            },
    {
        if !self.coords_in_bounds(coord) {
            return None;
        }
        let i = self.index(coord);
        Some(&self.tiles[i])
    }

    /// A copy of the cell at `coord`, or nothing where `coord` is off the
    /// board.
    pub fn get_tile_at_coords(&self, coord: Coordinates) -> (r: Option<Tile>)
        requires
            self@.wf(),
        ensures
            match r {
                Some(t) => self@.in_bounds(coord) && t == self@.tile(coord),
                None => !self@.in_bounds(coord),
            },
    {
        if !self.coords_in_bounds(coord) {
            return None;
        }
        let i = self.index(coord);
        Some(self.tiles[i])
    }

    /// A mine lies at `coordinates`; false off the board.
    pub fn is_bomb_at(&self, coordinates: Coordinates) -> (r: bool)
        requires
            self@.wf(),
        ensures
            r == self@.bomb_at(coordinates.x as int, coordinates.y as int),
    {
        if !self.coords_in_bounds(coordinates) {
            return false;
        }
        let i = self.index(coordinates);
        self.tiles[i].kind.is_bomb()
    }

    fn is_bomb_at_offset(&self, c: Coordinates, dx: i8, dy: i8) -> (r: u8)
        requires
            self@.wf(),
        ensures
            r == one_if(self@.bomb_at(c.x + dx, c.y + dy)),
    {
        match c.offset(dx, dy) {
            Some(n) => if self.is_bomb_at(n) {
                1
            } else {
                0
            },
            None => 0,
        }
    }

    /// The number of mines next to `coordinates`; zero for a mine and off
    /// the board.
    pub fn bomb_count_at(&self, coordinates: Coordinates) -> (r: u8)
        requires
            self@.wf(),
        ensures
            r == if !self@.in_bounds(coordinates) || self@.tile(coordinates).kind is Bomb {
                0
            } else {
                self@.neighbour_bombs(coordinates)
            },
    {
        if !self.coords_in_bounds(coordinates) {
            return 0;
        }
        if self.is_bomb_at(coordinates) {
            return 0;
        }
        let c = coordinates;
        self.is_bomb_at_offset(c, -1, -1) + self.is_bomb_at_offset(c, 0, -1)
            + self.is_bomb_at_offset(c, 1, -1) + self.is_bomb_at_offset(c, -1, 0)
            + self.is_bomb_at_offset(c, 1, 0) + self.is_bomb_at_offset(c, -1, 1)
            + self.is_bomb_at_offset(c, 0, 1) + self.is_bomb_at_offset(c, 1, 1)
    }

    fn push_if_on_board(&self, v: &mut Vec<Coordinates>, c: Coordinates, dx: i8, dy: i8)
        requires
            self@.wf(),
            old(v)@.no_duplicates(),
            forall|m: Coordinates|
                #[trigger] old(v)@.contains(m) ==> shifted(c, dx as int, dy as int) != Some(m),
        ensures
            final(v)@.no_duplicates(),
            forall|m: Coordinates|
                #[trigger] final(v)@.contains(m) <==> old(v)@.contains(m) || (shifted(
                    c,
                    dx as int,
                    dy as int,
                ) == Some(m) && self@.in_bounds(m)),
    {
        if let Some(n) = c.offset(dx, dy) {
            if self.coords_in_bounds(n) {
                assert forall|i: int| 0 <= i < v.len() implies v@[i] != n by {
                    assert(v@.contains(v@[i]));
                }
                v.push(n);
            }
        }
    }

    /// The neighbours of `coordinates` that lie on the board, each once.
    pub fn scan_map_at(&self, coordinates: Coordinates) -> (r: Vec<Coordinates>)
        requires
            self@.wf(),
        ensures
            r@.no_duplicates(),
            forall|n: Coordinates|
                #[trigger] r@.contains(n) <==> self@.in_bounds(n) && adjacent(coordinates, n),
    {
        let c = coordinates;
        let mut v: Vec<Coordinates> = Vec::new();
        self.push_if_on_board(&mut v, c, -1, -1);
        self.push_if_on_board(&mut v, c, 0, -1);
        self.push_if_on_board(&mut v, c, 1, -1);
        self.push_if_on_board(&mut v, c, -1, 0);
        self.push_if_on_board(&mut v, c, 1, 0);
        self.push_if_on_board(&mut v, c, -1, 1);
        self.push_if_on_board(&mut v, c, 0, 1);
        self.push_if_on_board(&mut v, c, 1, 1);
        assert forall|n: Coordinates|
            #[trigger] v@.contains(n) <==> self@.in_bounds(n) && adjacent(c, n) by {
            if self@.in_bounds(n) && adjacent(c, n) {
                let dx = n.x - c.x;
                let dy = n.y - c.y;
                assert(shifted(c, dx, dy) == Some(n));
            }
        }
        v
    }

    fn set_state(&mut self, i: usize, s: TileState)
        requires
            old(self)@.wf(),
            i < old(self)@.tiles.len(),
            s is Exploded ==> old(self)@.tiles[i as int].kind is Bomb,
        ensures
            final(self)@.wf(),
            final(self)@ == (BoardModel {
                tiles: old(self)@.tiles.update(
                    i as int,
                    Tile { kind: old(self)@.tiles[i as int].kind, state: s },
                ),
                ..old(self)@
            }),
    {
        let ghost before = self@;
        let t = Tile { kind: self.tiles[i].kind, state: s };
        self.tiles.set(i, t);
        assert(self@.kinds() =~= before.kinds());
    }

    /// Flags the hidden cell at `coord`, or unflags a flagged one; anything
    /// else, and a position off the board, is left as it is.
    pub fn toggle_flag_at(&mut self, coord: Coordinates)
        requires
            old(self)@.wf(),
        ensures
            final(self)@.wf(),
            final(self)@ == old(self)@.toggled_at(coord),
            old(self)@.same_kinds(final(self)@),
            old(self)@.legal_steps(final(self)@),
            old(self)@.lost() ==> final(self)@.lost(),
    {
        if self.coords_in_bounds(coord) {
            let i = self.index(coord);
            let mut t = self.tiles[i];
            t.toggle_flag();
            self.set_state(i, t.state);
        }
        proof {
            if old(self)@.lost() {
                let i = choose|i: int|
                    0 <= i < old(self)@.tiles.len() && (#[trigger] old(self)@.tiles[i]).state is Exploded;
                assert(self@.tiles[i].state is Exploded);
            }
        }
    }

    /// Some mine has exploded.
    pub fn has_lost(&self) -> (r: bool)
        requires
            self@.wf(),
        ensures
            r == self@.lost(),
    {
        let mut i: usize = 0;
        while i < self.tiles.len()
            invariant
                i <= self@.tiles.len(),
                forall|j: int| 0 <= j < i ==> !((#[trigger] self@.tiles[j]).state is Exploded),
            decreases self@.tiles.len() - i,
        {
            if self.tiles[i].state == TileState::Exploded {
                return true;
            }
            i += 1;
        }
        false
    }

    /// Exactly the mines are still hidden: as many cells are hidden as the
    /// board has mines, and each hidden cell is a mine. Flags are not needed
    /// to win; a flagged cell is not hidden, so a flagged mine keeps the
    /// board from counting as won until its flag is taken off.
    pub fn has_won(&self) -> (r: bool)
        requires
            self@.wf(),
        ensures
            r == self@.won(),
    {
        let mut hidden_tiles: usize = 0;
        let mut only_bombs = true;
        let mut i: usize = 0;
        while i < self.tiles.len()
            invariant
                i <= self@.tiles.len(),
                hidden_tiles == count_where(self@.tiles.subrange(0, i as int), hidden_pred()),
                hidden_tiles <= i,
                only_bombs == forall|j: int|
                    0 <= j < i && (#[trigger] self@.tiles[j]).state is Hidden
                        ==> self@.tiles[j].kind is Bomb,
            decreases self@.tiles.len() - i,
        {
            let t = self.tiles[i];
            proof {
                assert(self@.tiles.subrange(0, i + 1) =~= self@.tiles.subrange(0, i as int).push(
                    t,
                ));
                lemma_count_push(self@.tiles.subrange(0, i as int), hidden_pred(), t);
            }
            if t.state == TileState::Hidden {
                hidden_tiles += 1;
                if !t.kind.is_bomb() {
                    only_bombs = false;
                }
            }
            i += 1;
        }
        assert(self@.tiles.subrange(0, i as int) =~= self@.tiles);
        hidden_tiles == self.bomb_count as usize && only_bombs
    }

    /// Uncovers every hidden cell, mines included, without exploding any;
    /// flagged and exploded cells stay as they are.
    pub fn reveal_all(&mut self)
        requires
            old(self)@.wf(),
        ensures
            final(self)@.wf(),
            old(self)@.same_kinds(final(self)@),
            forall|i: int|
                0 <= i < final(self)@.tiles.len() ==> (#[trigger] final(self)@.tiles[i]).state
                    == opened(old(self)@.tiles[i].state),
            old(self)@.lost() ==> final(self)@.lost(),
            old(self)@.legal_steps(final(self)@),
    {
        let ghost before = self@;
        let mut i: usize = 0;
        while i < self.tiles.len()
            invariant
                self@.wf(),
                before.same_kinds(self@),
                i <= self@.tiles.len(),
                forall|j: int|
                    0 <= j < self@.tiles.len() ==> (#[trigger] self@.tiles[j]).state == if j < i {
                        opened(before.tiles[j].state)
                    } else {
                        before.tiles[j].state
                    },
            decreases self@.tiles.len() - i,
        {
            let mut t = self.tiles[i];
            t.reveal_without_exploding();
            self.set_state(i, t.state);
            i += 1;
        }
        proof {
            if before.lost() {
                let i = choose|i: int|
                    0 <= i < before.tiles.len() && (#[trigger] before.tiles[i]).state is Exploded;
                assert(self@.tiles[i].state is Exploded);
            }
        }
    }

    fn set_kind(&mut self, i: usize, k: TileType)
        requires
            i < old(self)@.tiles.len(),
        ensures
            final(self)@ == (BoardModel {
                tiles: old(self)@.tiles.update(
                    i as int,
                    Tile { kind: k, state: old(self)@.tiles[i as int].state },
                ),
                ..old(self)@
            }),
            final(self)@.kinds() == old(self)@.kinds().update(i as int, k),
            final(self)@.bomb_total() == old(self)@.bomb_total() - one_if(
                old(self)@.tiles[i as int].kind is Bomb,
            ) + one_if(k is Bomb),
    {
        let ghost before = self@;
        let t = Tile { kind: k, state: self.tiles[i].state };
        self.tiles.set(i, t);
        proof {
            assert(self@.kinds() =~= before.kinds().update(i as int, k));
            lemma_count_update(before.kinds(), bomb_pred(), i as int, k);
        }
    }

    /// Gives every cell that is not a mine the count of the mines around it.
    fn update_neighbour_counts(&mut self)
        requires
            old(self)@.wf(),
        ensures
            final(self)@.generated_from(old(self)@),
            final(self)@.bomb_count == old(self)@.bomb_count,
            forall|i: int|
                0 <= i < old(self)@.tiles.len() ==> ((#[trigger] final(self)@.tiles[i]).kind is Bomb)
                    == (old(self)@.tiles[i].kind is Bomb),
    {
        let ghost before = self@;
        let n = self.tiles.len();
        let mut i: usize = 0;
        while i < n
            invariant
                n == before.tiles.len(),
                before.wf(),
                self@.wf(),
                self@.width == before.width,
                self@.height == before.height,
                self@.bomb_count == before.bomb_count,
                self@.tiles.len() == n,
                i <= n,
                forall|j: int|
                    0 <= j < n ==> (#[trigger] self@.tiles[j]).state == before.tiles[j].state,
                forall|j: int|
                    0 <= j < n ==> ((#[trigger] self@.tiles[j]).kind is Bomb) == (
                    before.tiles[j].kind is Bomb),
                forall|j: int|
                    0 <= j < i ==> (#[trigger] self@.tiles[j]).kind == before.generated_kind(
                        before.coords_of(j),
                    ),
            decreases n - i,
        {
            proof {
                lemma_coords(before, i as int);
                lemma_same_bombs(self@, before);
            }
            let c = Coordinates { x: (i % self.width as usize) as u16, y: (i / self.width as usize) as u16 };
            assert(c == before.coords_of(i as int));
            if !self.tiles[i].kind.is_bomb() {
                let num = self.bomb_count_at(c);
                let k = if num == 0 {
                    TileType::Empty
                } else {
                    TileType::Neighbour(num)
                };
                self.set_kind(i, k);
                proof {
                    lemma_count_update(before.kinds(), bomb_pred(), i as int, k);
                }
            }
            i += 1;
        }
        proof {
            lemma_same_bombs(self@, before);
            assert forall|c: Coordinates| #[trigger] self@.in_bounds(c) implies self@.tile(c).kind
                == self@.generated_kind(c) by {
                lemma_index(before, c);
            }
        }
    }

    /// Places `bomb_count` mines on cells drawn uniformly at random among
    /// those still free, then hands the drawn cells to `set_bombs_at`, which
    /// places them and gives every other cell the count of the mines around
    /// it. The board must not hold mines yet, and there must be fewer
    /// mines than cells.
    pub fn set_bombs(&mut self, bomb_count: u16) -> (r: Result<(), BoardError>)
        requires
            old(self)@.wf(),
            old(self)@.all_empty(),
        ensures
            match r {
                Ok(()) => {
                    &&& (bomb_count as int) < old(self)@.size()
                    &&& final(self)@.generated_from(old(self)@)
                    &&& final(self)@.bomb_count == bomb_count
                    &&& final(self)@.bomb_total() == bomb_count
                },
                Err(e) => {
                    &&& e == BoardError::TooManyBombs
                    &&& bomb_count as int >= old(self)@.size()
                    &&& final(self)@ == old(self)@
                },
            },
    {
        let ghost before = self@;
        let n = self.tiles.len();
        if bomb_count as usize >= n {
            return Err(BoardError::TooManyBombs);
        }
        let mut candidates: Vec<usize> = Vec::new();
        while candidates.len() < n
            invariant
                candidates.len() <= n,
                forall|j: int| 0 <= j < candidates.len() ==> #[trigger] candidates@[j] == j,
            decreases n - candidates.len(),
        {
            candidates.push(candidates.len());
        }
        let mut chosen: Vec<Coordinates> = Vec::new();
        let mut remaining: u16 = bomb_count;
        proof {
            lemma_count_none(before.listed(chosen@), true_pred());
        }
        while remaining > 0
            invariant
                self@ == before,
                before.wf(),
                n == before.tiles.len(),
                (bomb_count as int) < n,
                remaining <= bomb_count,
                remaining + chosen.len() == bomb_count,
                candidates.len() + chosen.len() == n,
                candidates@.no_duplicates(),
                forall|j: int|
                    0 <= j < candidates.len() ==> #[trigger] candidates@[j] < n && !before.listed(
                        chosen@,
                    )[candidates@[j] as int],
                forall|j: int| 0 <= j < chosen.len() ==> before.in_bounds(#[trigger] chosen@[j]),
                before.listed_total(chosen@) == chosen.len(),
            decreases remaining,
        {
            let pick = random_below(candidates.len());
            let ghost old_candidates = candidates@;
            let ghost old_chosen = chosen@;
            let cell = candidates.swap_remove(pick);
            proof {
                lemma_swap_remove(old_candidates, pick as int);
                lemma_coords(before, cell as int);
            }
            let c = Coordinates {
                x: (cell % self.width as usize) as u16,
                y: (cell / self.width as usize) as u16,
            };
            assert(c == before.coords_of(cell as int));
            chosen.push(c);
            remaining -= 1;
            proof {
                lemma_listed_push(before, old_chosen, c);
                lemma_count_update(before.listed(old_chosen), true_pred(), cell as int, true);
                assert forall|j: int| 0 <= j < candidates.len() implies #[trigger] candidates@[j] < n
                    && !before.listed(chosen@)[candidates@[j] as int] by {
                    let k = choose|k: int|
                        0 <= k < old_candidates.len() && #[trigger] candidates@[j] == old_candidates[k];
                    assert(old_candidates[k] < n);
                }
                assert forall|j: int| 0 <= j < chosen.len() implies before.in_bounds(
                    #[trigger] chosen@[j],
                ) by {
                    if j < old_chosen.len() {
                        assert(chosen@[j] == old_chosen[j]);
                    }
                }
            }
        }
        let r = self.set_bombs_at(&chosen);
        assert(r is Ok);
        r
    }

    /// Places mines exactly on the cells that `bombs` names (a cell named
    /// twice takes one mine), then gives every other cell the count of the
    /// mines around it. The board must not hold mines yet. A named cell off
    /// the board, or as many distinct cells as the board has (or more than a
    /// `u16` counts), is refused and the board is left as it is.
    pub fn set_bombs_at(&mut self, bombs: &Vec<Coordinates>) -> (r: Result<(), BoardError>)
        requires
            old(self)@.wf(),
            old(self)@.all_empty(),
        ensures
            match r {
                Ok(()) => {
                    &&& forall|j: int| 0 <= j < bombs@.len() ==> old(self)@.in_bounds(#[trigger] bombs@[j])
                    &&& old(self)@.listed_total(bombs@) < old(self)@.size()
                    &&& old(self)@.listed_total(bombs@) <= u16::MAX
                    &&& final(self)@.generated_from(old(self)@)
                    &&& final(self)@.bomb_count == old(self)@.listed_total(bombs@)
                    &&& forall|i: int|
                        0 <= i < final(self)@.tiles.len() ==> ((#[trigger] final(self)@.tiles[i]).kind is Bomb)
                            == bombs@.contains(old(self)@.coords_of(i))
                },
                Err(e) => {
                    &&& final(self)@ == old(self)@
                    &&& e == BoardError::BombOutOfBounds <==> exists|j: int|
                        0 <= j < bombs@.len() && !old(self)@.in_bounds(#[trigger] bombs@[j])
                    &&& e == BoardError::TooManyBombs ==> (old(self)@.listed_total(bombs@)
                        >= old(self)@.size() || old(self)@.listed_total(bombs@) > u16::MAX)
                    &&& e != BoardError::EmptyDimension
                },
            },
    {
        let ghost before = self@;
        let n = self.tiles.len();
        let mut k: usize = 0;
        while k < bombs.len()
            invariant
                self@ == before,
                before.wf(),
                k <= bombs@.len(),
                forall|j: int| 0 <= j < k ==> before.in_bounds(#[trigger] bombs@[j]),
            decreases bombs@.len() - k,
        {
            if !self.coords_in_bounds(bombs[k]) {
                return Err(BoardError::BombOutOfBounds);
            }
            k += 1;
        }
        let (listed, total) = self.mark_cells(bombs);
        if total >= n || total > 65535 {
            return Err(BoardError::TooManyBombs);
        }
        let mut i: usize = 0;
        while i < n
            invariant
                before.wf(),
                before.all_empty(),
                n == before.tiles.len(),
                listed@.len() == n,
                self@.width == before.width,
                self@.height == before.height,
                self@.bomb_count == before.bomb_count,
                self@.tiles.len() == n,
                i <= n,
                forall|j: int|
                    0 <= j < n ==> (#[trigger] self@.tiles[j]).state == before.tiles[j].state,
                forall|j: int|
                    0 <= j < n ==> ((#[trigger] self@.tiles[j]).kind is Bomb) == (j < i
                        && listed@[j]),
            decreases n - i,
        {
            if listed[i] {
                self.set_kind(i, TileType::Bomb);
            }
            i += 1;
        }
        proof {
            lemma_count_congruent(self@.kinds(), bomb_pred(), listed@, true_pred());
            assert forall|j: int|
                0 <= j < self@.tiles.len() && (#[trigger] self@.tiles[j]).state is Exploded
                implies self@.tiles[j].kind is Bomb by {
                assert(before.tiles[j].kind is Empty);
            }
        }
        self.bomb_count = total as u16;
        self.update_neighbour_counts();
        Ok(())
    }

    /// For each cell, whether `cells` names it, and how many cells it names;
    /// positions off the board are passed over.
    fn mark_cells(&self, cells: &Vec<Coordinates>) -> (r: (Vec<bool>, usize))
        requires
            self@.wf(),
        ensures
            r.0@ == self@.listed(cells@),
            r.1 == self@.listed_total(cells@),
    {
        let n = self.tiles.len();
        let mut marks: Vec<bool> = Vec::new();
        while marks.len() < n
            invariant
                marks.len() <= n,
                forall|j: int| 0 <= j < marks.len() ==> !#[trigger] marks@[j],
            decreases n - marks.len(),
        {
            marks.push(false);
        }
        let mut total: usize = 0;
        let mut k: usize = 0;
        proof {
            lemma_count_none(marks@, true_pred());
        }
        while k < cells.len()
            invariant
                self@.wf(),
                n == self@.size(),
                k <= cells@.len(),
                marks@.len() == n,
                forall|i: int|
                    0 <= i < n ==> #[trigger] marks@[i] == cells@.subrange(0, k as int).contains(
                        self@.coords_of(i),
                    ),
                total == count_where(marks@, true_pred()),
                total <= k,
            decreases cells@.len() - k,
        {
            let c = cells[k];
            proof {
                assert(cells@.subrange(0, k + 1) =~= cells@.subrange(0, k as int).push(c));
            }
            if self.coords_in_bounds(c) {
                let i = self.index(c);
                proof {
                    lemma_index(self@, c);
                    assert forall|i2: int| 0 <= i2 < n && self@.coords_of(i2) == c implies i2
                        == i by {
                        lemma_coords(self@, i2);
                    }
                }
                if !marks[i] {
                    proof {
                        lemma_count_update(marks@, true_pred(), i as int, true);
                    }
                    marks.set(i, true);
                    total += 1;
                }
            } else {
                proof {
                    assert forall|i2: int| 0 <= i2 < n implies self@.coords_of(i2) != c by {
                        lemma_coords(self@, i2);
                    }
                }
            }
            k += 1;
        }
        assert(marks@ =~= self@.listed(cells@)) by {
            assert(cells@.subrange(0, cells@.len() as int) =~= cells@);
        }
        (marks, total)
    }

    fn open_cell(&mut self, i: usize)
        requires
            old(self)@.wf(),
            i < old(self)@.tiles.len(),
        ensures
            final(self)@.wf(),
            final(self)@ == (BoardModel {
                tiles: old(self)@.tiles.update(
                    i as int,
                    Tile {
                        kind: old(self)@.tiles[i as int].kind,
                        state: opened(old(self)@.tiles[i as int].state),
                    },
                ),
                ..old(self)@
            }),
    {
        let mut t = self.tiles[i];
        t.reveal_without_exploding();
        self.set_state(i, t.state);
    }

    /// The cascade that follows the reveal of an empty cell. From
    /// `coordinates`, it takes in every cell on the board that is not a mine
    /// and touches the start or an empty cell already taken in, and goes on
    /// from each empty cell that it takes in. The cells of `revealed` count as
    /// seen and are not taken in again; the start is taken in unless
    /// `revealed` holds it. Each cell taken in is appended to `revealed` and
    /// uncovered if hidden. A start off the board or on a mine does nothing.
    pub fn reveal_empty_neighbors(&mut self, coordinates: Coordinates, revealed: &mut Vec<Coordinates>)
        requires
            old(self)@.wf(),
        ensures
            final(self)@.wf(),
            old(revealed)@.len() <= final(revealed)@.len(),
            final(revealed)@.subrange(0, old(revealed)@.len() as int) == old(revealed)@,
            old(self)@.same_kinds(final(self)@),
            old(self)@.lost() ==> final(self)@.lost(),
            old(self)@.legal_steps(final(self)@),
            ({
                let added = final(revealed)@.subrange(
                    old(revealed)@.len() as int,
                    final(revealed)@.len() as int,
                );
                &&& old(self)@.opened_where(final(self)@, added)
                &&& added.len() <= old(self)@.size()
                &&& if old(self)@.in_bounds(coordinates) && !(old(self)@.tile(
                    coordinates,
                ).kind is Bomb) {
                    old(self)@.flood_result(coordinates, old(revealed)@, added)
                } else {
                    added.len() == 0
                }
            }),
    {
        let ghost before = self@;
        let ghost v0 = revealed@;
        let seed = coordinates;
        if !self.coords_in_bounds(seed) || self.is_bomb_at(seed) {
            assert(revealed@.subrange(0, v0.len() as int) =~= v0);
            assert(revealed@.subrange(v0.len() as int, v0.len() as int) =~= Seq::<Coordinates>::empty());
            return;
        }
        let n = self.tiles.len();
        let (mut visited, _) = self.mark_cells(revealed);
        let si = self.index(seed);
        proof {
            lemma_index(before, seed);
            lemma_count_le_len(visited@, false_pred());
        }
        let ghost mut added: Seq<Coordinates> = Seq::empty();
        if !visited[si] {
            proof {
                lemma_count_update(visited@, false_pred(), si as int, true);
            }
            visited.set(si, true);
            revealed.push(seed);
            self.open_cell(si);
            proof {
                added = seq![seed];
            }
        }
        let mut stack: Vec<Coordinates> = Vec::new();
        stack.push(seed);
        proof {
            assert(revealed@ =~= v0 + added);
            assert(stack@[0] == seed);
            assert forall|i: int| 0 <= i < n implies #[trigger] visited@[i] == revealed@.contains(
                before.coords_of(i),
            ) by {
                lemma_coords(before, i);
            }
            assert forall|i: int|
                0 <= i < before.tiles.len() implies (#[trigger] self@.tiles[i]).state == if added.contains(
                before.coords_of(i),
            ) && !(before.tiles[i].kind is Bomb) {
                opened(before.tiles[i].state)
            } else {
                before.tiles[i].state
            } by {
                lemma_coords(before, i);
                if added.contains(before.coords_of(i)) {
                    assert(added[0] == seed);
                }
            }
        }
        while stack.len() > 0
            invariant
                before.wf(),
                self@.wf(),
                n == before.tiles.len(),
                before.in_bounds(seed),
                !(before.tile(seed).kind is Bomb),
                before.opened_where(self@, added),
                revealed@ == v0 + added,
                visited@.len() == n,
                added.len() + count_where(visited@, false_pred()) <= n,
                forall|i: int|
                    0 <= i < n ==> #[trigger] visited@[i] == revealed@.contains(before.coords_of(i)),
                added.no_duplicates(),
                forall|i: int|
                    0 <= i < added.len() ==> !v0.contains(#[trigger] added[i]) && before.in_bounds(
                        added[i],
                    ) && !(before.tile(added[i]).kind is Bomb),
                !v0.contains(seed) ==> added.contains(seed),
                forall|k: int|
                    0 <= k < stack.len() ==> #[trigger] stack@[k] == seed || (added.contains(
                        stack@[k],
                    ) && before.tile(stack@[k]).kind is Empty),
                forall|c: Coordinates, m: Coordinates|
                    #[trigger] adjacent(c, m) && (c == seed || (added.contains(c) && before.tile(
                        c,
                    ).kind is Empty)) && !stack@.contains(c) && before.in_bounds(m) && !(before.tile(
                        m,
                    ).kind is Bomb) ==> revealed@.contains(m),
                forall|s: Set<Coordinates>| #[trigger]
                    before.flood_closed(seed, v0, s) ==> forall|i: int|
                        0 <= i < added.len() ==> s.contains(#[trigger] added[i]),
            decreases count_where(visited@, false_pred()), stack.len(),
        {
            let ghost unvisited = count_where(visited@, false_pred());
            let ghost depth = stack.len();
            let ghost old_stack = stack@;
            let c = stack.pop().unwrap();
            let ghost pending = stack@;
            proof {
                assert(stack@.push(c) =~= old_stack);
            }
            assert(c == seed || (added.contains(c) && before.tile(c).kind is Empty));
            let around = self.scan_map_at(c);
            let mut j: usize = 0;
            while j < around.len()
                invariant
                    before.wf(),
                    self@.wf(),
                    n == before.tiles.len(),
                    before.in_bounds(seed),
                    !(before.tile(seed).kind is Bomb),
                    before.opened_where(self@, added),
                    revealed@ == v0 + added,
                    visited@.len() == n,
                    added.len() + count_where(visited@, false_pred()) <= n,
                    forall|i: int|
                        0 <= i < n ==> #[trigger] visited@[i] == revealed@.contains(
                            before.coords_of(i),
                        ),
                    added.no_duplicates(),
                    forall|i: int|
                        0 <= i < added.len() ==> !v0.contains(#[trigger] added[i])
                            && before.in_bounds(added[i]) && !(before.tile(added[i]).kind is Bomb),
                    !v0.contains(seed) ==> added.contains(seed),
                    c == seed || (added.contains(c) && before.tile(c).kind is Empty),
                    forall|k: int|
                        0 <= k < stack.len() ==> #[trigger] stack@[k] == seed || (added.contains(
                            stack@[k],
                        ) && before.tile(stack@[k]).kind is Empty),
                    forall|k: int| 0 <= k < pending.len() ==> stack@.contains(#[trigger] pending[k]),
                    forall|c2: Coordinates, m: Coordinates|
                        #[trigger] adjacent(c2, m) && c2 != c && (c2 == seed || (added.contains(c2)
                            && before.tile(c2).kind is Empty)) && !stack@.contains(c2)
                            && before.in_bounds(m) && !(before.tile(m).kind is Bomb)
                            ==> revealed@.contains(m),
                    forall|s: Set<Coordinates>| #[trigger]
                        before.flood_closed(seed, v0, s) ==> forall|i: int|
                            0 <= i < added.len() ==> s.contains(#[trigger] added[i]),
                    j <= around@.len(),
                    around@.no_duplicates(),
                    forall|m: Coordinates|
                        #[trigger] around@.contains(m) <==> before.in_bounds(m) && adjacent(c, m),
                    forall|k: int|
                        0 <= k < j ==> before.tile(#[trigger] around@[k]).kind is Bomb
                            || revealed@.contains(around@[k]),
                    count_where(visited@, false_pred()) < unvisited || (count_where(
                        visited@,
                        false_pred(),
                    ) == unvisited && stack.len() < depth),
                decreases around@.len() - j,
            {
                let m = around[j];
                proof {
                    assert(around@.contains(m));
                }
                let mi = self.index(m);
                proof {
                    lemma_index(before, m);
                }
                if !visited[mi] && !self.tiles[mi].kind.is_bomb() {
                    proof {
                        lemma_count_update(visited@, false_pred(), mi as int, true);
                        assert forall|i2: int| 0 <= i2 < n && before.coords_of(i2) == m implies i2
                            == mi by {
                            lemma_coords(before, i2);
                        }
                        assert(!revealed@.contains(m));
                        assert(!v0.contains(m)) by {
                            if v0.contains(m) {
                                let k = choose|k: int| 0 <= k < v0.len() && v0[k] == m;
                                assert(revealed@[k] == m);
                            }
                        }
                        assert forall|i: int| 0 <= i < added.len() implies #[trigger] added[i]
                            != m by {
                            assert(revealed@[v0.len() + i] == added[i]);
                        }
                        assert forall|s: Set<Coordinates>| #[trigger]
                            before.flood_closed(seed, v0, s) implies s.contains(m) by {
                            if c != seed {
                                let k = choose|k: int| 0 <= k < added.len() && added[k] == c;
                                assert(s.contains(added[k]));
                            }
                            assert(adjacent(c, m));
                        }
                    }
                    visited.set(mi, true);
                    revealed.push(m);
                    self.open_cell(mi);
                    let ghost prev = added;
                    proof {
                        added = added.push(m);
                        assert forall|s: Set<Coordinates>| #[trigger]
                            before.flood_closed(seed, v0, s) implies forall|i: int|
                            0 <= i < added.len() ==> s.contains(#[trigger] added[i]) by {
                            assert forall|i: int| 0 <= i < added.len() implies s.contains(
                                #[trigger] added[i],
                            ) by {
                                if i < prev.len() {
                                    assert(added[i] == prev[i]);
                                }
                            }
                        }
                    }
                    if self.tiles[mi].kind.is_empty() {
                        stack.push(m);
                    }
                    proof {
                        assert(revealed@ =~= v0 + added);
                        assert forall|i: int|
                            0 <= i < before.tiles.len() implies (#[trigger] self@.tiles[i]).state
                            == if added.contains(before.coords_of(i)) && !(before.tiles[i].kind is Bomb) {
                            opened(before.tiles[i].state)
                        } else {
                            before.tiles[i].state
                        } by {
                            lemma_coords(before, i);
                        }
                    }
                }
                j += 1;
            }
            proof {
                assert forall|m: Coordinates|
                    before.in_bounds(m) && adjacent(c, m) && !(before.tile(m).kind is Bomb)
                    implies revealed@.contains(m) by {
                    assert(around@.contains(m));
                    let k = choose|k: int| 0 <= k < around@.len() && around@[k] == m;
                    assert(before.tile(around@[k]).kind is Bomb || revealed@.contains(around@[k]));
                }
            }
        }
        proof {
            if before.lost() {
                lemma_opened_keeps_lost(before, self@, added);
            }
            lemma_opened_legal(before, self@, added);
            assert(revealed@.subrange(0, v0.len() as int) =~= v0);
            assert(revealed@.subrange(v0.len() as int, revealed@.len() as int) =~= added);
            assert forall|c: Coordinates, m: Coordinates|
                #[trigger] adjacent(c, m) && (c == seed || (added.to_set().contains(c)
                    && before.tile(c).kind is Empty)) && before.in_bounds(m) && !(before.tile(
                    m,
                ).kind is Bomb) && !v0.contains(m) implies added.to_set().contains(m) by {
                assert(revealed@.contains(m));
                let k = choose|k: int| 0 <= k < revealed@.len() && revealed@[k] == m;
                if k < v0.len() {
                    assert(v0[k] == m);
                } else {
                    assert(added[k - v0.len()] == m);
                }
            }
        }
    }

    /// Reveals the cell at `coordinates`, returning what happened and the
    /// cells uncovered. A hidden mine explodes and comes back alone. A hidden
    /// numbered cell is uncovered alone. A hidden empty cell starts the
    /// cascade, which uncovers it and everything that the flood from it takes
    /// in. A position off the board, or a cell that is not hidden, changes
    /// nothing.
    pub fn reveal_at(&mut self, coordinates: Coordinates) -> (r: (RevealResult, Vec<Coordinates>))
        requires
            old(self)@.wf(),
        ensures
            final(self)@.wf(),
            old(self)@.same_kinds(final(self)@),
            old(self)@.lost() ==> final(self)@.lost(),
            old(self)@.legal_steps(final(self)@),
            match r.0 {
                RevealResult::Unchanged => {
                    &&& !old(self)@.in_bounds(coordinates) || !(old(self)@.tile(coordinates).state is Hidden)
                    &&& final(self)@ == old(self)@
                    &&& r.1@.len() == 0
                },
                RevealResult::Mine => {
                    &&& old(self)@.in_bounds(coordinates)
                    &&& old(self)@.tile(coordinates).state is Hidden
                    &&& old(self)@.tile(coordinates).kind is Bomb
                    &&& final(self)@ == (BoardModel {
                        tiles: old(self)@.tiles.update(
                            old(self)@.index_of(coordinates),
                            Tile { kind: TileType::Bomb, state: TileState::Exploded },
                        ),
                        ..old(self)@
                    })
                    &&& r.1@ == seq![coordinates]
                },
                RevealResult::Safe => {
                    &&& old(self)@.in_bounds(coordinates)
                    &&& old(self)@.tile(coordinates).state is Hidden
                    &&& !(old(self)@.tile(coordinates).kind is Bomb)
                    &&& old(self)@.opened_where(final(self)@, r.1@)
                    &&& if old(self)@.tile(coordinates).kind is Empty {
                        old(self)@.flood_result(coordinates, Seq::empty(), r.1@)
                    } else {
                        r.1@ == seq![coordinates]
                    }
                },
            },
    {
        let ghost before = self@;
        let mut revealed: Vec<Coordinates> = Vec::new();
        if !self.coords_in_bounds(coordinates) {
            return (RevealResult::Unchanged, revealed);
        }
        let i = self.index(coordinates);
        let t = self.tiles[i];
        if t.state != TileState::Hidden {
            return (RevealResult::Unchanged, revealed);
        }
        proof {
            lemma_index(before, coordinates);
        }
        if t.kind.is_bomb() {
            let mut t2 = t;
            t2.uncover();
            self.set_state(i, t2.state);
            revealed.push(coordinates);
            proof {
                if before.lost() {
                    let j = choose|j: int|
                        0 <= j < before.tiles.len() && (#[trigger] before.tiles[j]).state is Exploded;
                    assert(self@.tiles[j].state is Exploded);
                }
            }
            return (RevealResult::Mine, revealed);
        }
        if t.kind.is_empty() {
            self.reveal_empty_neighbors(coordinates, &mut revealed);
            proof {
                assert(revealed@.subrange(0, revealed@.len() as int) =~= revealed@);
            }
        } else {
            self.open_cell(i);
            revealed.push(coordinates);
            proof {
                assert forall|j: int|
                    0 <= j < before.tiles.len() implies (#[trigger] self@.tiles[j]).state == if revealed@.contains(
                    before.coords_of(j),
                ) && !(before.tiles[j].kind is Bomb) {
                    opened(before.tiles[j].state)
                } else {
                    before.tiles[j].state
                } by {
                    lemma_coords(before, j);
                    assert(revealed@[0] == coordinates);
                    assert(revealed@.contains(before.coords_of(j)) <==> before.coords_of(j)
                        == coordinates);
                }
            }
        }
        proof {
            if before.lost() {
                lemma_opened_keeps_lost(before, self@, revealed@);
            }
            lemma_opened_legal(before, self@, revealed@);
        }
        (RevealResult::Safe, revealed)
    }

    /// The chord on `coordinates`: takes in every neighbour on the board.
    /// A mine is returned as it is, neither uncovered nor exploded; a
    /// numbered cell is uncovered; an empty cell is uncovered and starts the
    /// cascade, which shares what has been taken in so far. Flags are not
    /// consulted: a flagged neighbour is returned like any other and stays
    /// flagged, so a caller that honours flags checks the mines it gets back.
    /// The mines in the result are exactly the mines around `coordinates`.
    /// A position off the board changes nothing and returns nothing.
    pub fn reveal_neighbors(&mut self, coordinates: Coordinates) -> (r: Vec<Coordinates>)
        requires
            old(self)@.wf(),
        ensures
            final(self)@.wf(),
            old(self)@.opened_where(final(self)@, r@),
            old(self)@.same_kinds(final(self)@),
            old(self)@.lost() ==> final(self)@.lost(),
            old(self)@.legal_steps(final(self)@),
            if old(self)@.in_bounds(coordinates) {
                old(self)@.chord_result(coordinates, r@)
            } else {
                r@.len() == 0
            },
    {
        let ghost before = self@;
        let c = coordinates;
        let mut result: Vec<Coordinates> = Vec::new();
        if !self.coords_in_bounds(c) {
            return result;
        }
        let around = self.scan_map_at(c);
        let mut j: usize = 0;
        while j < around.len()
            invariant
                before.wf(),
                self@.wf(),
                before.in_bounds(c),
                before.opened_where(self@, result@),
                around@.no_duplicates(),
                forall|m: Coordinates|
                    #[trigger] around@.contains(m) <==> before.in_bounds(m) && adjacent(c, m),
                j <= around@.len(),
                result@.no_duplicates(),
                forall|i: int|
                    0 <= i < result@.len() ==> before.in_bounds(#[trigger] result@[i]) && (before.tile(
                        result@[i],
                    ).kind is Bomb ==> adjacent(c, result@[i])),
                forall|k: int| 0 <= k < j ==> result@.contains(#[trigger] around@[k]),
                forall|e: Coordinates, m: Coordinates|
                    #[trigger] adjacent(e, m) && result@.contains(e) && before.in_bounds(e)
                        && before.tile(e).kind is Empty && before.in_bounds(m) && !(before.tile(
                        m,
                    ).kind is Bomb) ==> result@.contains(m),
                forall|s: Set<Coordinates>| #[trigger]
                    before.chord_closed(c, s) ==> forall|i: int|
                        0 <= i < result@.len() ==> s.contains(#[trigger] result@[i]),
            decreases around@.len() - j,
        {
            let m = around[j];
            let ghost r_start = result@;
            proof {
                assert(around@.contains(m));
            }
            if !contains_coord(&result, m) {
                let mi = self.index(m);
                proof {
                    lemma_index(before, m);
                }
                let ghost r0 = result@;
                let ghost b0 = self@;
                if self.tiles[mi].kind.is_bomb() {
                    result.push(m);
                    proof {
                        assert(result@ == r0.push(m));
                        assert(before.tile(m).kind is Bomb);
                        assert forall|e: Coordinates, n: Coordinates|
                            #[trigger] adjacent(e, n) && result@.contains(e) && before.in_bounds(e)
                                && before.tile(e).kind is Empty && before.in_bounds(n) && !(before.tile(
                                n,
                            ).kind is Bomb) implies result@.contains(n) by {
                            assert(e != m);
                            assert(r0.contains(e));
                            assert(r0.contains(n));
                            assert(r0.push(m).contains(n));
                        }
                        assert forall|i: int| 0 <= i < before.tiles.len() implies (#[trigger] self@.tiles[i]).state == if result@.contains(
                            before.coords_of(i),
                        ) && !(before.tiles[i].kind is Bomb) {
                            opened(before.tiles[i].state)
                        } else {
                            before.tiles[i].state
                        } by {
                            lemma_coords(before, i);
                            if before.coords_of(i) == m {
                                assert(i == mi as int);
                            }
                        }
                    }
                } else {
                    self.open_cell(mi);
                    result.push(m);
                    proof {
                        lemma_opened_one(b0, self@, mi as int);
                        lemma_opened_compose(before, b0, self@, r0, seq![m]);
                        assert(r0 + seq![m] =~= result@);
                        assert(result@ == r0.push(m));
                        lemma_same_kinds_tile(before, self@);
                    }
                    if !self.tiles[mi].kind.is_empty() {
                        proof {
                            assert forall|e: Coordinates, n: Coordinates|
                                #[trigger] adjacent(e, n) && result@.contains(e) && before.in_bounds(e)
                                    && before.tile(e).kind is Empty && before.in_bounds(n) && !(before.tile(
                                    n,
                                ).kind is Bomb) implies result@.contains(n) by {
                                if e != m {
                                    assert(r0.contains(n));
                                }
                            }
                        }
                    } else {
                        let ghost r1 = result@;
                        let ghost b1 = self@;
                        self.reveal_empty_neighbors(m, &mut result);
                        proof {
                            let x = result@.subrange(r1.len() as int, result@.len() as int);
                            assert(result@ =~= r1 + x);
                            lemma_opened_compose(before, b1, self@, r1, x);
                            lemma_same_kinds_tile(before, b1);
                            lemma_coords(before, mi as int);
                            assert(b1.flood_result(m, r1, x));
                            lemma_no_duplicates_concat(r1, x);
                            assert forall|i: int| 0 <= i < result@.len() implies before.in_bounds(
                                #[trigger] result@[i],
                            ) && (before.tile(result@[i]).kind is Bomb ==> adjacent(c, result@[i])) by {
                                if i >= r1.len() {
                                    assert(result@[i] == x[i - r1.len()]);
                                } else {
                                    assert(result@[i] == r1[i]);
                                }
                            }
                            assert forall|e: Coordinates, n: Coordinates|
                                #[trigger] adjacent(e, n) && result@.contains(e) && before.in_bounds(e)
                                    && before.tile(e).kind is Empty && before.in_bounds(n) && !(before.tile(
                                    n,
                                ).kind is Bomb) implies result@.contains(n) by {
                                if !r1.contains(n) {
                                    if e == m {
                                        assert(b1.tile(m).kind is Empty);
                                    } else if r0.contains(e) {
                                        assert(r0.contains(n));
                                    } else {
                                        assert(x.contains(e));
                                        assert(x.to_set().contains(e));
                                    }
                                    assert(b1.tile(n).kind == before.tile(n).kind);
                                    assert(b1.tile(e).kind == before.tile(e).kind);
                                    assert(x.to_set().contains(n));
                                }
                            }
                            assert forall|s: Set<Coordinates>| #[trigger]
                                before.chord_closed(c, s) implies forall|i: int|
                                0 <= i < result@.len() ==> s.contains(#[trigger] result@[i]) by {
                                assert(adjacent(c, m));
                                assert forall|i: int| 0 <= i < r1.len() implies s.contains(
                                    #[trigger] r1[i],
                                ) by {
                                    if i < r0.len() {
                                        assert(r1[i] == r0[i]);
                                    }
                                }
                                assert(b1.flood_closed(m, r1, s));
                                assert forall|i: int| 0 <= i < result@.len() implies s.contains(
                                    #[trigger] result@[i],
                                ) by {
                                    if i >= r1.len() {
                                        assert(result@[i] == x[i - r1.len()]);
                                    } else {
                                        assert(result@[i] == r1[i]);
                                    }
                                }
                            }
                        }
                    }
                }
            }
            proof {
                assert(result@.contains(m));
                assert forall|k: int| 0 <= k < j + 1 implies result@.contains(#[trigger] around@[k]) by {
                    if k < j {
                        assert(r_start.contains(around@[k]));
                        let q = choose|q: int| 0 <= q < r_start.len() && r_start[q] == around@[k];
                        assert(result@[q] == r_start[q]);
                    }
                }
            }
            j += 1;
        }
        proof {
            assert forall|m: Coordinates| #[trigger]
                adjacent(c, m) && before.in_bounds(m) implies result@.to_set().contains(m) by {
                assert(around@.contains(m));
                let k = choose|k: int| 0 <= k < around@.len() && around@[k] == m;
                assert(result@.contains(around@[k]));
            }
            if before.lost() {
                lemma_opened_keeps_lost(before, self@, result@);
            }
            lemma_opened_legal(before, self@, result@);
        }
        result
    }

    /// A new game: a board of `width` by `height` cells with `mine_count`
    /// mines placed at random and every other cell numbered, all hidden.
    pub fn create_session(width: u16, height: u16, mine_count: u16) -> (r: Result<TileMap, BoardError>)
        ensures
            match r {
                Ok(m) => {
                    &&& width > 0 && height > 0
                    &&& (mine_count as int) < width * height
                    &&& m@.wf()
                    &&& m@.width == width
                    &&& m@.height == height
                    &&& m@.bomb_count == mine_count
                    &&& m@.bomb_total() == mine_count
                    &&& m@.counts_consistent()
                    &&& forall|i: int| 0 <= i < m@.tiles.len() ==> (#[trigger] m@.tiles[i]).state is Hidden
                },
                Err(e) => {
                    &&& width == 0 || height == 0 || mine_count as int >= width * height
                    &&& e == BoardError::EmptyDimension <==> (width == 0 || height == 0)
                    &&& e == BoardError::TooManyBombs <==> (width > 0 && height > 0 && mine_count as int
                        >= width * height)
                },
            },
    {
        let mut map = match TileMap::empty(width, height) {
            Ok(m) => m,
            Err(e) => return Err(e),
        };
        match map.set_bombs(mine_count) {
            Ok(()) => Ok(map),
            Err(e) => Err(e),
        }
    }

    fn draw_row(&self, y: u16) -> (r: String)
        requires
            self@.wf(),
            y < self@.height,
        ensures
            row_drawn(self@, y as int, r@),
    {
        let mut out = String::from_str("|");
        let ghost mut gs: Seq<Seq<char>> = Seq::empty();
        let mut x: u16 = 0;
        while x < self.width
            invariant
                self@.wf(),
                y < self@.height,
                x <= self@.width,
                gs.len() == x,
                forall|i: int|
                    0 <= i < x ==> glyphs(
                        self@.tile(Coordinates { x: i as u16, y: y as u16 }).kind,
                    ).contains(#[trigger] gs[i]),
                out@ == "|"@ + join(gs),
            decreases self@.width - x,
        {
            let i = self.index(Coordinates { x, y });
            let glyph = self.tiles[i].kind.console_draw();
            out.append(glyph.as_str());
            proof {
                let prev = gs;
                gs = gs.push(glyph@);
                assert(gs.drop_last() =~= prev);
            }
            x += 1;
        }
        out.append("|\n");
        assert(out@ == "|"@ + join(gs) + "|\n"@);
        out
    }

    /// A text dump of the board for logs and tests: the size and the number
    /// of mines, then the rows from the top down, each cell drawn by its kind
    /// alone (whatever its state), framed by bars and rules of dashes.
    pub fn console_output(&self) -> (r: String)
        requires
            self@.wf(),
        ensures
            dump_drawn(self@, r@),
    {
        let mut out = String::from_str("Map (");
        push_decimal(&mut out, self.width);
        out.append(", ");
        push_decimal(&mut out, self.height);
        out.append(") with ");
        push_decimal(&mut out, self.bomb_count);
        out.append(" bombs:\n");
        let mut line = String::new();
        let mut k: usize = 0;
        while k < self.width as usize + 2
            invariant
                k <= self.width as usize + 2,
                line@ == dashes(k as nat),
            decreases self.width as usize + 2 - k,
        {
            proof {
                reveal_strlit("-");
            }
            line.append("-");
            k += 1;
            assert(line@ =~= dashes(k as nat));
        }
        out.append(line.as_str());
        out.append("\n");
        let ghost prefix = out@;
        assert(prefix == dump_header(self@) + dashes(self@.width + 2) + "\n"@);
        let ghost mut rows: Seq<Seq<char>> = Seq::empty();
        let mut y: u16 = self.height;
        while y > 0
            invariant
                self@.wf(),
                y <= self@.height,
                rows.len() == self@.height - y,
                forall|k: int| 0 <= k < rows.len() ==> row_drawn(self@, self@.height - 1 - k, #[trigger] rows[k]),
                out@ == prefix + join(rows),
            decreases y,
        {
            y -= 1;
            let row = self.draw_row(y);
            out.append(row.as_str());
            proof {
                let prev = rows;
                rows = rows.push(row@);
                assert(rows.drop_last() =~= prev);
                assert(rows[rows.len() - 1] == row@);
            }
        }
        out.append(line.as_str());
        assert(out@ == dump_header(self@) + dashes(self@.width + 2) + "\n"@ + join(rows) + dashes(self@.width + 2));
        out
    }

    /// A primary click on `coordinates`. A hidden cell is revealed as
    /// `reveal_at` reveals it. A revealed cell is chorded as
    /// `reveal_neighbors` chords it, and then each mine the chord returns goes
    /// off if it is still hidden; a flagged mine does not. A flagged or
    /// exploded cell, or a position off the board, changes nothing. Returns
    /// the cells that the click took in.
    pub fn left_click_tile(&mut self, coordinates: Coordinates) -> (r: Vec<Coordinates>)
        requires
            old(self)@.wf(),
        ensures
            final(self)@.wf(),
            old(self)@.same_kinds(final(self)@),
            old(self)@.lost() ==> final(self)@.lost(),
            old(self)@.legal_steps(final(self)@),
            old(self)@.uncovered_where(final(self)@, r@),
            !old(self)@.in_bounds(coordinates) ==> r@.len() == 0,
            old(self)@.in_bounds(coordinates) ==> match old(self)@.tile(coordinates).state {
                TileState::Hidden => if old(self)@.tile(coordinates).kind is Empty {
                    old(self)@.flood_result(coordinates, Seq::empty(), r@)
                } else {
                    r@ == seq![coordinates]
                },
                TileState::Revealed => old(self)@.chord_result(coordinates, r@),
                _ => r@.len() == 0,
            },
    {
        let ghost before = self@;
        let c = coordinates;
        let tile = match self.get_tile_at_coords(c) {
            Some(t) => t,
            None => return Vec::new(),
        };
        proof {
            lemma_index(before, c);
        }
        if tile.state == TileState::Hidden {
            let (result, revealed) = self.reveal_at(c);
            proof {
                if result == RevealResult::Mine {
                    assert forall|i: int| 0 <= i < before.tiles.len() implies (#[trigger] self@.tiles[i]).state
                        == if revealed@.contains(before.coords_of(i)) {
                        revealed_state(before.tiles[i])
                    } else {
                        before.tiles[i].state
                    } by {
                        lemma_coords(before, i);
                        assert(revealed@[0] == c);
                        assert(revealed@.contains(before.coords_of(i)) <==> before.coords_of(i) == c);
                        if before.coords_of(i) == c {
                            assert(i == before.index_of(c));
                        }
                    }
                } else {
                    if !(before.tile(c).kind is Empty) {
                        assert(revealed@[0] == c);
                    }
                    lemma_opened_safe_cells(before, self@, revealed@);
                }
            }
            return revealed;
        }
        if tile.state != TileState::Revealed {
            return Vec::new();
        }
        let taken = self.reveal_neighbors(c);
        let ghost mid = self@;
        let mut k: usize = 0;
        while k < taken.len()
            invariant
                before.wf(),
                mid.wf(),
                self@.wf(),
                before.opened_where(mid, taken@),
                before.legal_steps(mid),
                mid.same_kinds(self@),
                k <= taken@.len(),
                forall|j: int| 0 <= j < taken@.len() ==> before.in_bounds(#[trigger] taken@[j]),
                forall|i: int|
                    0 <= i < mid.tiles.len() ==> (#[trigger] self@.tiles[i]).state == if taken@.subrange(
                        0,
                        k as int,
                    ).contains(mid.coords_of(i)) && mid.tiles[i].kind is Bomb {
                        revealed_state(mid.tiles[i])
                    } else {
                        mid.tiles[i].state
                    },
            decreases taken@.len() - k,
        {
            let m = taken[k];
            proof {
                assert(taken@.subrange(0, k + 1) =~= taken@.subrange(0, k as int).push(m));
                lemma_index(before, m);
            }
            if self.is_bomb_at(m) {
                let i = self.index(m);
                let mut t = self.tiles[i];
                t.uncover();
                self.set_state(i, t.state);
                proof {
                    assert forall|i2: int| 0 <= i2 < mid.tiles.len() implies (#[trigger] self@.tiles[i2]).state
                        == if taken@.subrange(0, k + 1).contains(mid.coords_of(i2))
                        && mid.tiles[i2].kind is Bomb {
                        revealed_state(mid.tiles[i2])
                    } else {
                        mid.tiles[i2].state
                    } by {
                        lemma_coords(before, i2);
                        if mid.coords_of(i2) == m {
                            assert(i2 == i as int);
                        }
                    }
                }
            } else {
                proof {
                    assert forall|i2: int| 0 <= i2 < mid.tiles.len() implies (#[trigger] self@.tiles[i2]).state
                        == if taken@.subrange(0, k + 1).contains(mid.coords_of(i2))
                        && mid.tiles[i2].kind is Bomb {
                        revealed_state(mid.tiles[i2])
                    } else {
                        mid.tiles[i2].state
                    } by {
                        lemma_coords(before, i2);
                        if mid.coords_of(i2) == m {
                            assert(i2 == before.index_of(m));
                        }
                    }
                }
            }
            k += 1;
        }
        proof {
            assert(taken@.subrange(0, taken@.len() as int) =~= taken@);
            assert forall|i: int| 0 <= i < before.tiles.len() implies (#[trigger] self@.tiles[i]).state
                == if taken@.contains(before.coords_of(i)) {
                revealed_state(before.tiles[i])
            } else {
                before.tiles[i].state
            } by {
                assert(mid.tiles[i].state == if taken@.contains(before.coords_of(i)) && !(
                before.tiles[i].kind is Bomb) {
                    opened(before.tiles[i].state)
                } else {
                    before.tiles[i].state
                });
            }
            if before.lost() {
                let i = choose|i: int| 0 <= i < before.tiles.len() && (#[trigger] before.tiles[i]).state is Exploded;
                assert(self@.tiles[i].state is Exploded);
            }
            assert forall|i: int| 0 <= i < before.tiles.len() implies legal_step(
                before.tiles[i].state,
                #[trigger] self@.tiles[i].state,
            ) by {
                assert(self@.tiles[i].state == if taken@.contains(before.coords_of(i)) {
                    revealed_state(before.tiles[i])
                } else {
                    before.tiles[i].state
                });
            }
        }
        taken
    }
}

} // verus!
