use vstd::prelude::*;

use crate::coordinates::{adjacent, Coordinates};
use crate::counting::{lemma_count_congruent, lemma_count_mono};
use crate::tile::{toggled, TileState};
use crate::board_model::{bomb_pred, hidden_pred, lemma_index, BoardModel};

verus! {

/// `p` walks from `from` to `to` one neighbour at a time over cells on the
/// board that are not mines, and every cell it passes between the two ends is
/// empty.
pub open spec fn safe_walk(m: BoardModel, p: Seq<Coordinates>, from: Coordinates, to: Coordinates) -> bool {
    &&& p.len() >= 1
    &&& p[0] == from
    &&& p.last() == to
    &&& forall|i: int|
        0 <= i < p.len() ==> m.in_bounds(#[trigger] p[i]) && !(m.tile(p[i]).kind is Bomb)
    &&& forall|i: int| 0 < i < p.len() - 1 ==> (#[trigger] m.tile(p[i])).kind is Empty
    &&& forall|i: int| 0 <= i < p.len() - 1 ==> #[trigger] adjacent(p[i], p[i + 1])
}

/// Some safe walk leads from `from` to `to`.
pub open spec fn safely_reachable(m: BoardModel, from: Coordinates, to: Coordinates) -> bool {
    exists|p: Seq<Coordinates>| safe_walk(m, p, from, to)
}

/// The flood from a safe cell ends with the start among the cells seen or
/// taken in, and reaches each cell it takes in by a walk from the start that
/// crosses no mine and passes only through empty cells: a cell that could be
/// reached only through a mine is never taken in.
pub proof fn lemma_flood_walks_around_mines(
    m: BoardModel,
    seed: Coordinates,
    seen: Seq<Coordinates>,
    added: Seq<Coordinates>,
)
    requires
        m.wf(),
        m.in_bounds(seed),
        !(m.tile(seed).kind is Bomb),
        m.flood_result(seed, seen, added),
    ensures
        seen.contains(seed) || added.contains(seed),
        forall|i: int| 0 <= i < added.len() ==> safely_reachable(m, seed, #[trigger] added[i]),
{
    let reach = Set::new(|c: Coordinates| safely_reachable(m, seed, c));
    assert(safe_walk(m, seq![seed], seed, seed));
    assert forall|c: Coordinates, n: Coordinates|
        #[trigger] adjacent(c, n) && (c == seed || (reach.contains(c) && m.in_bounds(c) && m.tile(
            c,
        ).kind is Empty)) && m.in_bounds(n) && !(m.tile(n).kind is Bomb) && !seen.contains(n)
        implies reach.contains(n) by {
        if c == seed {
            let p = seq![seed, n];
            assert(p[0] == seed && p[1] == n);
            assert(safe_walk(m, p, seed, n));
        } else {
            let p = choose|p: Seq<Coordinates>| safe_walk(m, p, seed, c);
            let q = p.push(n);
            assert(q[q.len() - 2] == c);
            assert forall|i: int| 0 <= i < q.len() - 1 implies #[trigger] adjacent(q[i], q[i + 1]) by {
                if i < p.len() - 1 {
                    assert(q[i] == p[i] && q[i + 1] == p[i + 1]);
                }
            }
            assert forall|i: int| 0 < i < q.len() - 1 implies (#[trigger] m.tile(q[i])).kind is Empty by {
                if i < p.len() - 1 {
                    assert(q[i] == p[i]);
                }
            }
            assert forall|i: int| 0 <= i < q.len() implies m.in_bounds(#[trigger] q[i]) && !(m.tile(
                q[i],
            ).kind is Bomb) by {
                if i < p.len() {
                    assert(q[i] == p[i]);
                }
            }
            assert(safe_walk(m, q, seed, n));
        }
    }
    assert(m.flood_closed(seed, seen, reach));
    assert forall|i: int| 0 <= i < added.len() implies safely_reachable(m, seed, #[trigger] added[i]) by {
        assert(reach.contains(added[i]));
    }
    assert(m.flood_closed(seed, seen, added.to_set()));
}

/// Toggling a flag twice gives back the state it started from, whatever the
/// state.
pub proof fn lemma_toggle_flag_involutive(s: TileState)
    ensures
        toggled(toggled(s)) == s,
{
}

/// Toggling the flag at one position twice gives back the board it started
/// from.
pub proof fn lemma_toggle_flag_at_involutive(m: BoardModel, c: Coordinates)
    requires
        m.wf(),
    ensures
        m.toggled_at(c).toggled_at(c) == m,
{
    if m.in_bounds(c) {
        lemma_index(m, c);
        assert(m.toggled_at(c).toggled_at(c).tiles =~= m.tiles);
    }
}

/// A won board has no explosion: a board with an exploded mine never counts
/// as won.
pub proof fn lemma_won_excludes_lost(m: BoardModel)
    requires
        m.wf(),
        m.won(),
    ensures
        !m.lost(),
{
    let is_mine = |t: crate::tile::Tile| t.kind is Bomb;
    lemma_count_congruent(m.kinds(), bomb_pred(), m.tiles, is_mine);
    lemma_count_mono(m.tiles, hidden_pred(), is_mine);
    if m.lost() {
        let i = choose|i: int| 0 <= i < m.tiles.len() && (#[trigger] m.tiles[i]).state is Exploded;
        assert(is_mine(m.tiles[i]) && !hidden_pred()(m.tiles[i]));
    }
}

} // verus!
