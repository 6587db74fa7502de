//! Properties of a field of the first version that span several moves.
use vstd::prelude::*;
use crate::grid::{encode, in_bounds, lemma_encode, nbr_set, Quad};
use super::{lemma_counts_small, GameView, QueryResult};

verus! {

/// The counters of a well-formed field follow from where its mines, flags
/// and revealed tiles are: two well-formed fields that agree on those, on
/// their size and on their settings are the same field.
pub proof fn law_counters_follow_board(a: GameView, b: GameView)
    requires
        a.wf(),
        b.wf(),
        a.size == b.size,
        a.board() == b.board(),
        a.delta == b.delta,
        a.mines_remaining == b.mines_remaining,
    ensures
        a == b,
{
    assert(a.tiles.len() == b.tiles.len());
    assert forall|j: int| 0 <= j < a.tiles.len() implies a.tiles[j].has_mine == b.tiles[j].has_mine
        && a.tiles[j].flagged == b.tiles[j].flagged && a.tiles[j].revealed == b.tiles[j].revealed by {
        assert(a.board()[j] == b.board()[j]);
    }
    assert(a.mines() =~= b.mines());
    assert(a.flags() =~= b.flags());
    assert forall|j: int| 0 <= j < a.tiles.len() implies a.tiles[j] == b.tiles[j] by {
        assert(a.tile_ok(j));
        assert(b.tile_ok(j));
        assert(a.board()[j] == b.board()[j]);
    }
    assert(a.tiles =~= b.tiles);
}

/// Toggling the flag on the same hidden tile twice leaves the board as it
/// was; only the count of mines left has gone down, by two.
pub proof fn law_flag_toggle_undoes(
    f0: GameView,
    c: (int, int, int, int),
    f1: GameView,
    first: bool,
    f2: GameView,
    second: bool,
)
    requires
        f0.wf(),
        in_bounds(f0.size, c),
        !f0.tile(c).revealed,
        f0.flag_toggled(c, f1, first),
        f1.flag_toggled(c, f2, second),
    ensures
        f2 == (GameView { mines_remaining: f0.mines_remaining - 2, ..f0 }),
        second == !first,
{
    let i = encode(f0.size, c);
    lemma_encode(f0.size, c);
    assert(f1.board()[i] == (f1.tiles[i].has_mine, f1.tiles[i].flagged, f1.tiles[i].revealed));
    assert(f0.board()[i] == (f0.tiles[i].has_mine, f0.tiles[i].flagged, f0.tiles[i].revealed));
    assert(f2.board() =~= f0.board());
    let g = GameView { mines_remaining: f0.mines_remaining - 2, ..f0 };
    assert(g.wf()) by {
        assert(g.mines() == f0.mines());
        assert(g.flags() == f0.flags());
        assert forall|j: int| 0 <= j < g.tiles.len() implies #[trigger] g.tile_ok(j) by {
            assert(f0.tile_ok(j));
        }
    }
    law_counters_follow_board(f2, g);
}

/// The number of mines around the tile at position `i`, less, with the
/// count shown relative to flags, the flags around it: counted on the board.
pub open spec fn mines_left_around(f: GameView, i: int) -> int {
    let n = nbr_set(f.size, i);
    if f.delta {
        n.intersect(f.mines()).len() - n.intersect(f.flags()).len()
    } else {
        n.intersect(f.mines()).len() as int
    }
}

/// A revealed tile without a mine shows the number of mines around it,
/// less the flags around it when the count is relative to flags.
pub proof fn law_revealed_tile_shows_its_count(f: GameView, c: Quad)
    requires
        f.wf(),
        in_bounds(f.size, c),
        f.tile(c).revealed,
        !f.tile(c).has_mine,
    ensures
        -80 <= mines_left_around(f, encode(f.size, c)) <= 80,
        f.query(c) == QueryResult::Revealed(mines_left_around(f, encode(f.size, c)) as i16),
{
    let i = encode(f.size, c);
    lemma_encode(f.size, c);
    assert(f.tile_ok(i));
    lemma_counts_small(f, i);
}

} // verus!
