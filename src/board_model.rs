use vstd::prelude::*;

use crate::coordinates::{adjacent, Coordinates};
use crate::counting::{count_where, one_if};
use crate::text::decimal;
use crate::tile::{glyphs, legal_step, opened, revealed_state, toggled, Tile, TileType};

verus! {

broadcast use {
    vstd::seq_lib::lemma_seq_contains_after_push,
    vstd::seq_lib::lemma_seq_empty_contains_nothing,
    vstd::seq_lib::lemma_seq_concat_contains_all_elements,
};

/// The mathematical board: its size, the number of mines it was generated
/// with, and its cells in row-major order (`y * width + x`).
pub ghost struct BoardModel {
    pub width: nat,
    pub height: nat,
    pub bomb_count: nat,
    pub tiles: Seq<Tile>,
}

pub open spec fn bomb_pred() -> spec_fn(TileType) -> bool {
    |k: TileType| k is Bomb
}

pub open spec fn true_pred() -> spec_fn(bool) -> bool {
    |b: bool| b
}

pub open spec fn false_pred() -> spec_fn(bool) -> bool {
    |b: bool| !b
}

pub open spec fn hidden_pred() -> spec_fn(Tile) -> bool {
    |t: Tile| t.state is Hidden
}

impl BoardModel {
    pub open spec fn size(self) -> nat {
        self.width * self.height
    }

    pub open spec fn kinds(self) -> Seq<TileType> {
        self.tiles.map_values(|t: Tile| t.kind)
    }

    /// The number of mines on the board.
    pub open spec fn bomb_total(self) -> nat {
        count_where(self.kinds(), bomb_pred())
    }

    /// The number of hidden cells.
    pub open spec fn hidden_total(self) -> nat {
        count_where(self.tiles, hidden_pred())
    }

    pub open spec fn wf(self) -> bool {
        &&& 0 < self.width <= u16::MAX
        &&& 0 < self.height <= u16::MAX
        &&& self.bomb_count <= u16::MAX
        &&& self.tiles.len() == self.size()
        &&& self.bomb_total() == self.bomb_count
        &&& forall|i: int|
            0 <= i < self.tiles.len() && (#[trigger] self.tiles[i]).state is Exploded
                ==> self.tiles[i].kind is Bomb
    }

    pub open spec fn in_bounds(self, c: Coordinates) -> bool {
        c.x < self.width && c.y < self.height
    }

    pub open spec fn index_of(self, c: Coordinates) -> int {
        c.y * self.width + c.x
    }

    pub open spec fn coords_of(self, i: int) -> Coordinates {
        Coordinates { x: (i % self.width as int) as u16, y: (i / self.width as int) as u16 }
    }

    pub open spec fn tile(self, c: Coordinates) -> Tile {
        self.tiles[self.index_of(c)]
    }

    /// A mine lies at `(x, y)`, which is on the board.
    pub open spec fn bomb_at(self, x: int, y: int) -> bool {
        &&& 0 <= x < self.width
        &&& 0 <= y < self.height
        &&& self.tiles[y * self.width + x].kind is Bomb
    }

    /// The number of mines among the eight neighbours of `c` that are on the
    /// board, counted one by one.
    pub open spec fn neighbour_bombs(self, c: Coordinates) -> int {
        one_if(self.bomb_at(c.x - 1, c.y - 1)) + one_if(self.bomb_at(c.x as int, c.y - 1))
            + one_if(self.bomb_at(c.x + 1, c.y - 1)) + one_if(self.bomb_at(c.x - 1, c.y as int))
            + one_if(self.bomb_at(c.x + 1, c.y as int)) + one_if(self.bomb_at(c.x - 1, c.y + 1))
            + one_if(self.bomb_at(c.x as int, c.y + 1)) + one_if(self.bomb_at(c.x + 1, c.y + 1))
    }

    /// The kind that generation gives to `c`, from where the mines lie.
    pub open spec fn generated_kind(self, c: Coordinates) -> TileType {
        if self.tile(c).kind is Bomb {
            TileType::Bomb
        } else if self.neighbour_bombs(c) == 0 {
            TileType::Empty
        } else {
            TileType::Neighbour(self.neighbour_bombs(c) as u8)
        }
    }

    /// Every cell that is not a mine holds the count of its neighbouring mines.
    pub open spec fn counts_consistent(self) -> bool {
        forall|c: Coordinates| #[trigger]
            self.in_bounds(c) ==> self.tile(c).kind == self.generated_kind(c)
    }

    /// Some mine has exploded.
    pub open spec fn lost(self) -> bool {
        exists|i: int| 0 <= i < self.tiles.len() && (#[trigger] self.tiles[i]).state is Exploded
    }

    /// As many cells are hidden as the board has mines, and each of them is
    /// a mine. Flags are not needed to win; a flagged cell is not hidden.
    pub open spec fn won(self) -> bool {
        &&& self.hidden_total() == self.bomb_count
        &&& forall|i: int|
            0 <= i < self.tiles.len() && (#[trigger] self.tiles[i]).state is Hidden
                ==> self.tiles[i].kind is Bomb
    }

    /// No mine has been placed yet.
    pub open spec fn all_empty(self) -> bool {
        forall|i: int| 0 <= i < self.tiles.len() ==> (#[trigger] self.tiles[i]).kind is Empty
    }

    /// For each cell, whether `bombs` names it.
    pub open spec fn listed(self, bombs: Seq<Coordinates>) -> Seq<bool> {
        Seq::new(self.size(), |i: int| bombs.contains(self.coords_of(i)))
    }

    /// The number of distinct cells that `bombs` names.
    pub open spec fn listed_total(self, bombs: Seq<Coordinates>) -> nat {
        count_where(self.listed(bombs), true_pred())
    }

    /// The board that generation makes from `self`: the same size, states
    /// and mines, mine total recorded, and every other cell's kind computed
    /// from the mines around it.
    pub open spec fn generated_from(self, before: BoardModel) -> bool {
        &&& self.wf()
        &&& self.width == before.width
        &&& self.height == before.height
        &&& self.tiles.len() == before.tiles.len()
        &&& self.counts_consistent()
        &&& forall|i: int|
            0 <= i < self.tiles.len() ==> (#[trigger] self.tiles[i]).state
                == before.tiles[i].state
    }

    /// `s` is closed under the flood from `seed` past the cells of `seen`:
    /// it holds the seed unless `seen` does, and every cell on the board that
    /// is not a mine, is not in `seen`, and touches the seed or an empty cell
    /// of `s`.
    pub open spec fn flood_closed(
        self,
        seed: Coordinates,
        seen: Seq<Coordinates>,
        s: Set<Coordinates>,
    ) -> bool {
        &&& (!seen.contains(seed) ==> s.contains(seed))
        &&& forall|c: Coordinates, n: Coordinates|
            #[trigger] adjacent(c, n) && (c == seed || (s.contains(c) && self.in_bounds(c)
                && self.tile(c).kind is Empty)) && self.in_bounds(n) && !(self.tile(n).kind is Bomb) && !seen.contains(n)
                ==> s.contains(n)
    }

    /// `added` is what a flood from `seed` takes in past the cells of `seen`:
    /// each cell once, none of `seen`, none a mine, closed under the flood,
    /// and inside every set that is closed under it.
    pub open spec fn flood_result(
        self,
        seed: Coordinates,
        seen: Seq<Coordinates>,
        added: Seq<Coordinates>,
    ) -> bool {
        &&& added.no_duplicates()
        &&& forall|i: int|
            0 <= i < added.len() ==> !seen.contains(#[trigger] added[i]) && self.in_bounds(added[i])
                && !(self.tile(added[i]).kind is Bomb)
        &&& self.flood_closed(seed, seen, added.to_set())
        &&& forall|s: Set<Coordinates>| #[trigger]
            self.flood_closed(seed, seen, s) ==> forall|i: int|
                0 <= i < added.len() ==> s.contains(#[trigger] added[i])
    }

    /// `after` is this board with the cells of `cells` that are not mines
    /// uncovered, and nothing else changed.
    pub open spec fn opened_where(self, after: BoardModel, cells: Seq<Coordinates>) -> bool {
        &&& self.same_kinds(after)
        &&& forall|i: int|
            0 <= i < self.tiles.len() ==> (#[trigger] after.tiles[i]).state == if cells.contains(
                self.coords_of(i),
            ) && !(self.tiles[i].kind is Bomb) {
                opened(self.tiles[i].state)
            } else {
                self.tiles[i].state
            }
    }

    /// `s` holds every cell on the board around `c`, and every cell on the
    /// board that is not a mine and touches an empty cell of `s`.
    pub open spec fn chord_closed(self, c: Coordinates, s: Set<Coordinates>) -> bool {
        &&& forall|m: Coordinates| #[trigger] adjacent(c, m) && self.in_bounds(m) ==> s.contains(m)
        &&& forall|e: Coordinates, m: Coordinates|
            #[trigger] adjacent(e, m) && s.contains(e) && self.in_bounds(e) && self.tile(e).kind is Empty
                && self.in_bounds(m) && !(self.tile(m).kind is Bomb) ==> s.contains(m)
    }

    /// `r` is what a chord on `c` takes in: each cell once, all on the
    /// board, mines only next to `c`, closed under the chord, and inside
    /// every set that is closed under it.
    pub open spec fn chord_result(self, c: Coordinates, r: Seq<Coordinates>) -> bool {
        &&& r.no_duplicates()
        &&& forall|i: int|
            0 <= i < r.len() ==> self.in_bounds(#[trigger] r[i]) && (self.tile(r[i]).kind is Bomb
                ==> adjacent(c, r[i]))
        &&& self.chord_closed(c, r.to_set())
        &&& forall|s: Set<Coordinates>| #[trigger]
            self.chord_closed(c, s) ==> forall|i: int| 0 <= i < r.len() ==> s.contains(#[trigger] r[i])
    }

    /// This board with the flag at `c` toggled; off the board, the same board.
    pub open spec fn toggled_at(self, c: Coordinates) -> BoardModel {
        if self.in_bounds(c) {
            BoardModel {
                tiles: self.tiles.update(
                    self.index_of(c),
                    Tile { kind: self.tile(c).kind, state: toggled(self.tile(c).state) },
                ),
                ..self
            }
        } else {
            self
        }
    }

    /// `after` is this board with the cells of `cells` revealed as a click
    /// reveals a cell: a hidden mine explodes, another hidden cell is
    /// uncovered, and nothing else changes.
    pub open spec fn uncovered_where(self, after: BoardModel, cells: Seq<Coordinates>) -> bool {
        &&& self.same_kinds(after)
        &&& forall|i: int|
            0 <= i < self.tiles.len() ==> (#[trigger] after.tiles[i]).state == if cells.contains(
                self.coords_of(i),
            ) {
                revealed_state(self.tiles[i])
            } else {
                self.tiles[i].state
            }
    }

    /// Each cell keeps its kind.
    pub open spec fn same_kinds(self, other: BoardModel) -> bool {
        &&& self.width == other.width
        &&& self.height == other.height
        &&& self.bomb_count == other.bomb_count
        &&& self.tiles.len() == other.tiles.len()
        &&& forall|i: int|
            0 <= i < self.tiles.len() ==> (#[trigger] other.tiles[i]).kind == self.tiles[i].kind
    }

    /// Each cell's state moves to the next board only as the game allows,
    /// and an exploded cell stays exploded.
    pub open spec fn legal_steps(self, next: BoardModel) -> bool {
        forall|i: int|
            0 <= i < self.tiles.len() ==> legal_step(
                self.tiles[i].state,
                #[trigger] next.tiles[i].state,
            )
    }
}

pub proof fn lemma_index(m: BoardModel, c: Coordinates)
    requires
        m.wf(),
        m.in_bounds(c),
    ensures
        0 <= m.index_of(c) < m.size(),
        m.coords_of(m.index_of(c)) == c,
{
    let w = m.width as int;
    let h = m.height as int;
    let x = c.x as int;
    let y = c.y as int;
    assert(0 <= y * w + x < w * h) by (nonlinear_arith)
        requires
            0 <= x < w,
            0 <= y < h,
    ;
    vstd::arithmetic::div_mod::lemma_fundamental_div_mod_converse(y * w + x, w, y, x);
}

pub proof fn lemma_coords(m: BoardModel, i: int)
    requires
        m.wf(),
        0 <= i < m.size(),
    ensures
        m.in_bounds(m.coords_of(i)),
        m.index_of(m.coords_of(i)) == i,
{
    let w = m.width as int;
    let h = m.height as int;
    vstd::arithmetic::div_mod::lemma_fundamental_div_mod(i, w);
    let q = i / w;
    let r = i % w;
    assert(0 <= q < h) by (nonlinear_arith)
        requires
            i == w * q + r,
            0 <= r < w,
            0 <= i < w * h,
    ;
    assert(q * w == w * q) by (nonlinear_arith);
    assert(m.coords_of(i).x as int == r);
    assert(m.coords_of(i).y as int == q);
}

/// Two boards of one size with their mines in the same places count the
/// same neighbouring mines everywhere.
pub proof fn lemma_same_bombs(a: BoardModel, b: BoardModel)
    requires
        a.wf(),
        a.width == b.width,
        a.height == b.height,
        a.tiles.len() == b.tiles.len(),
        forall|i: int|
            0 <= i < a.tiles.len() ==> ((#[trigger] a.tiles[i]).kind is Bomb) == (
            b.tiles[i].kind is Bomb),
    ensures
        forall|x: int, y: int| #[trigger] a.bomb_at(x, y) == b.bomb_at(x, y),
        forall|c: Coordinates| #[trigger] a.neighbour_bombs(c) == b.neighbour_bombs(c),
{
    assert forall|x: int, y: int| #[trigger] a.bomb_at(x, y) == b.bomb_at(x, y) by {
        if 0 <= x < a.width && 0 <= y < a.height {
            lemma_index(a, Coordinates { x: x as u16, y: y as u16 });
        }
    }
}

/// Boards with the same kinds agree on the kind of every cell on the board.
pub proof fn lemma_same_kinds_tile(a: BoardModel, b: BoardModel)
    requires
        a.wf(),
        a.same_kinds(b),
    ensures
        forall|c: Coordinates| a.in_bounds(c) ==> #[trigger] b.tile(c).kind == a.tile(c).kind,
{
    assert forall|c: Coordinates| a.in_bounds(c) implies #[trigger] b.tile(c).kind == a.tile(c).kind by {
        lemma_index(a, c);
    }
}

/// Uncovering `s1` and then `s2` uncovers `s1 + s2`.
pub proof fn lemma_opened_compose(
    a: BoardModel,
    b: BoardModel,
    c: BoardModel,
    s1: Seq<Coordinates>,
    s2: Seq<Coordinates>,
)
    requires
        a.opened_where(b, s1),
        b.opened_where(c, s2),
    ensures
        a.opened_where(c, s1 + s2),
{
    assert forall|i: int| 0 <= i < a.tiles.len() implies (#[trigger] c.tiles[i]).state == if (s1
        + s2).contains(a.coords_of(i)) && !(a.tiles[i].kind is Bomb) {
        opened(a.tiles[i].state)
    } else {
        a.tiles[i].state
    } by {
        assert(b.tiles[i].kind == a.tiles[i].kind);
        assert(b.tiles[i].state == if s1.contains(a.coords_of(i)) && !(a.tiles[i].kind is Bomb) {
            opened(a.tiles[i].state)
        } else {
            a.tiles[i].state
        });
    }
}

/// Uncovering the one cell at index `i`.
pub proof fn lemma_opened_one(a: BoardModel, b: BoardModel, i: int)
    requires
        a.wf(),
        0 <= i < a.tiles.len(),
        !(a.tiles[i].kind is Bomb),
        b == (BoardModel {
            tiles: a.tiles.update(
                i,
                Tile { kind: a.tiles[i].kind, state: opened(a.tiles[i].state) },
            ),
            ..a
        }),
    ensures
        a.opened_where(b, seq![a.coords_of(i)]),
{
    lemma_coords(a, i);
    let c = a.coords_of(i);
    assert forall|j: int| 0 <= j < a.tiles.len() implies (#[trigger] b.tiles[j]).state == if seq![
        c,
    ].contains(a.coords_of(j)) && !(a.tiles[j].kind is Bomb) {
        opened(a.tiles[j].state)
    } else {
        a.tiles[j].state
    } by {
        lemma_coords(a, j);
        assert(seq![c][0] == c);
        assert(seq![c].contains(a.coords_of(j)) <==> a.coords_of(j) == c);
        if a.coords_of(j) == c {
            assert(j == i);
        }
    }
}

pub proof fn lemma_no_duplicates_concat<A>(s1: Seq<A>, s2: Seq<A>)
    requires
        s1.no_duplicates(),
        s2.no_duplicates(),
        forall|i: int| 0 <= i < s2.len() ==> !s1.contains(#[trigger] s2[i]),
    ensures
        (s1 + s2).no_duplicates(),
{
    let t = s1 + s2;
    assert forall|i: int, j: int| 0 <= i < t.len() && 0 <= j < t.len() && i != j implies t[i]
        != t[j] by {
        if i < s1.len() && j >= s1.len() {
            assert(s1.contains(t[i]));
            assert(t[j] == s2[j - s1.len()]);
        } else if j < s1.len() && i >= s1.len() {
            assert(s1.contains(t[j]));
            assert(t[i] == s2[i - s1.len()]);
        }
    }
}

/// Uncovering cells keeps every explosion.
pub proof fn lemma_opened_keeps_lost(a: BoardModel, b: BoardModel, cells: Seq<Coordinates>)
    requires
        a.opened_where(b, cells),
        a.lost(),
    ensures
        b.lost(),
{
    let i = choose|i: int| 0 <= i < a.tiles.len() && (#[trigger] a.tiles[i]).state is Exploded;
    assert(b.tiles[i].state is Exploded);
}

/// The pieces of `parts` one after another.
pub open spec fn join(parts: Seq<Seq<char>>) -> Seq<char>
    decreases parts.len(),
{
    if parts.len() == 0 {
        Seq::empty()
    } else {
        join(parts.drop_last()) + parts.last()
    }
}

pub open spec fn dashes(n: nat) -> Seq<char> {
    Seq::new(n, |i: int| '-')
}

/// The first line of a board's dump: its size and its number of mines.
pub open spec fn dump_header(m: BoardModel) -> Seq<char> {
    "Map ("@ + decimal(m.width) + ", "@ + decimal(m.height) + ") with "@ + decimal(m.bomb_count)
        + " bombs:\n"@
}

/// `text` is row `y` of the dump: its cells' glyphs from left to right
/// between two bars, and a line break.
pub open spec fn row_drawn(m: BoardModel, y: int, text: Seq<char>) -> bool {
    exists|gs: Seq<Seq<char>>|
        {
            &&& gs.len() == m.width
            &&& forall|x: int|
                0 <= x < m.width ==> glyphs(
                    m.tile(Coordinates { x: x as u16, y: y as u16 }).kind,
                ).contains(#[trigger] gs[x])
            &&& text == "|"@ + join(gs) + "|\n"@
        }
}

/// `text` is a dump of the board: the header, a rule of dashes, the rows
/// from the top one down, and the rule again.
pub open spec fn dump_drawn(m: BoardModel, text: Seq<char>) -> bool {
    exists|rows: Seq<Seq<char>>|
        {
            &&& rows.len() == m.height
            &&& forall|k: int| 0 <= k < m.height ==> row_drawn(m, m.height - 1 - k, #[trigger] rows[k])
            &&& text == dump_header(m) + dashes(m.width + 2) + "\n"@ + join(rows) + dashes(m.width + 2)
        }
}

/// Uncovering cells moves each state only as the game allows.
pub proof fn lemma_opened_legal(a: BoardModel, b: BoardModel, cells: Seq<Coordinates>)
    requires
        a.opened_where(b, cells),
    ensures
        a.legal_steps(b),
{
    assert forall|i: int| 0 <= i < a.tiles.len() implies legal_step(
        a.tiles[i].state,
        #[trigger] b.tiles[i].state,
    ) by {
        assert(b.tiles[i].state == if cells.contains(a.coords_of(i)) && !(a.tiles[i].kind is Bomb) {
            opened(a.tiles[i].state)
        } else {
            a.tiles[i].state
        });
    }
}

/// Uncovering cells none of which is a mine reveals them as a click does.
pub proof fn lemma_opened_safe_cells(a: BoardModel, b: BoardModel, cells: Seq<Coordinates>)
    requires
        a.wf(),
        a.opened_where(b, cells),
        forall|j: int|
            0 <= j < cells.len() ==> a.in_bounds(#[trigger] cells[j]) && !(a.tile(cells[j]).kind is Bomb),
    ensures
        a.uncovered_where(b, cells),
{
    assert forall|i: int| 0 <= i < a.tiles.len() implies (#[trigger] b.tiles[i]).state == if cells.contains(
        a.coords_of(i),
    ) {
        revealed_state(a.tiles[i])
    } else {
        a.tiles[i].state
    } by {
        lemma_coords(a, i);
        if cells.contains(a.coords_of(i)) {
            let j = choose|j: int| 0 <= j < cells.len() && cells[j] == a.coords_of(i);
            assert(!(a.tile(cells[j]).kind is Bomb));
        }
    }
}

/// Naming one more cell on the board marks that cell and no other.
pub proof fn lemma_listed_push(m: BoardModel, s: Seq<Coordinates>, c: Coordinates)
    requires
        m.wf(),
        m.in_bounds(c),
    ensures
        m.listed(s.push(c)) == m.listed(s).update(m.index_of(c), true),
{
    lemma_index(m, c);
    assert forall|i: int| 0 <= i < m.size() implies #[trigger] m.listed(s.push(c))[i] == m.listed(
        s,
    ).update(m.index_of(c), true)[i] by {
        lemma_coords(m, i);
    }
    assert(m.listed(s.push(c)) =~= m.listed(s).update(m.index_of(c), true));
}

} // verus!
