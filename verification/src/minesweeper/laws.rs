//! Properties of the minefield that span several moves.
use vstd::prelude::*;
use crate::grid::{encode, in_bounds, lemma_encode, nbr_set, Quad};
use super::{fresh, marks, start_run, FieldView, QueryResult};
use super::tile::TileView;

verus! {

/// The counters of a well-formed field follow from its marks: two
/// well-formed fields of the same size, with the same marks on every tile
/// and the same settings, are the same field.
pub proof fn law_counters_follow_marks(a: FieldView, b: FieldView)
    requires
        a.wf(),
        b.wf(),
        a.size == b.size,
        a.board() == b.board(),
        a.delta == b.delta,
        a.cheated == b.cheated,
        a.started == b.started,
    ensures
        a == b,
{
    assert(a.tiles.len() == b.tiles.len());
    assert forall|j: int| 0 <= j < a.tiles.len() implies marks(a.tiles[j]) == marks(b.tiles[j]) by {
        assert(a.board()[j] == b.board()[j]);
    }
    assert(a.mines() =~= b.mines());
    assert(a.flags() =~= b.flags());
    assert(a.hidden() =~= b.hidden());
    assert forall|j: int| 0 <= j < a.tiles.len() implies a.tiles[j] == b.tiles[j] by {
        assert(a.tile_ok(j));
        assert(b.tile_ok(j));
    }
    assert(a.tiles =~= b.tiles);
}

/// Toggling the flag on the same hidden tile twice gives back the field it
/// started from, and the second toggle reports the opposite of the first.
pub proof fn law_flag_toggle_undoes(
    f0: FieldView,
    c: (int, int, int, int),
    f1: FieldView,
    first: bool,
    f2: FieldView,
    second: bool,
)
    requires
        f0.wf(),
        in_bounds(f0.size, c),
        !f0.tile(c).revealed,
        f0.flag_toggled(c, f1, first),
        f1.flag_toggled(c, f2, second),
    ensures
        f2 == f0,
        second == !first,
{
    let i = encode(f0.size, c);
    lemma_encode(f0.size, c);
    assert(f1.board()[i] == marks(f1.tiles[i]));
    assert(f0.board()[i] == marks(f0.tiles[i]));
    assert(f2.board() =~= f0.board());
    law_counters_follow_marks(f2, f0);
}

/// While no mine has gone off, the game is won (as many mines as hidden
/// tiles) exactly when every tile without a mine is revealed.
pub proof fn law_won_means_all_safe_revealed(f: FieldView)
    requires
        f.wf(),
        f.mines_hidden(),
    ensures
        (f.minecount == f.unrevealed_tiles) <==> forall|j: int|
            0 <= j < f.tiles.len() && !#[trigger] f.tiles[j].has_mine ==> f.tiles[j].revealed,
{
    super::lemma_sets_finite(f);
    assert(f.mines().subset_of(f.hidden()));
    if f.minecount == f.unrevealed_tiles {
        vstd::set_lib::lemma_subset_equality(f.mines(), f.hidden());
        assert forall|j: int| 0 <= j < f.tiles.len() && !#[trigger] f.tiles[j].has_mine implies f.tiles[j].revealed by {
            assert(!f.mines().contains(j));
        }
    }
    if forall|j: int| 0 <= j < f.tiles.len() && !#[trigger] f.tiles[j].has_mine ==> f.tiles[j].revealed {
        assert(f.hidden() =~= f.mines());
    }
}

/// A fresh field has no mine revealed, and flagging keeps every mine
/// hidden; with the reveals, which keep them hidden unless they fail, a
/// game played without an explosion keeps every mine hidden, so that the
/// law above applies to it.
pub proof fn law_flagging_keeps_mines_hidden(
    f0: FieldView,
    c: (int, int, int, int),
    f1: FieldView,
    flagged: bool,
)
    requires
        f0.wf(),
        in_bounds(f0.size, c),
        fresh(f0) || f0.mines_hidden(),
        f0.flag_toggled(c, f1, flagged),
    ensures
        f0.mines_hidden(),
        f1.mines_hidden(),
{
    let i = encode(f0.size, c);
    lemma_encode(f0.size, c);
    assert forall|j: int| 0 <= j < f1.tiles.len() && #[trigger] f1.tiles[j].has_mine implies !f1.tiles[j].revealed by {
        assert(f1.board()[j] == marks(f1.tiles[j]));
        assert(f0.board()[j] == marks(f0.tiles[j]));
    }
}

/// The mines left to flag are the mines less the flags on the field.
pub proof fn law_mines_left(f: FieldView)
    requires
        f.wf(),
    ensures
        f.minecount - f.flagged_tiles == f.mines().len() - f.flags().len(),
{
}

/// `b` is what one move leaves of `a`: a flag put on or taken off a hidden
/// tile, a reveal (of any outcome, a start included), or a switch of the
/// count shown.
pub open spec fn after_move(a: FieldView, b: FieldView) -> bool {
    ||| a.wf() && exists|c: (int, int, int, int), flagged: bool|
        in_bounds(a.size, c) && #[trigger] a.flag_toggled(c, b, flagged)
    ||| a.only_reveals(b) && (a.started ==> b.started)
    ||| b == (FieldView { delta: !a.delta, ..a })
}

/// Over any sequence of moves, the size, the number of mines and whether
/// the player cheated never change (only `cheat` sets that), and a started
/// game stays started.
pub proof fn law_moves_keep_settings(play: Seq<FieldView>)
    requires
        play.len() >= 1,
        forall|k: int| 0 <= k < play.len() - 1 ==> after_move(#[trigger] play[k], play[k + 1]),
    ensures
        play.last().size == play[0].size,
        play.last().minecount == play[0].minecount,
        play.last().cheated == play[0].cheated,
        play[0].started ==> play.last().started,
    decreases play.len(),
{
    if play.len() > 1 {
        let rest = play.drop_last();
        assert forall|k: int| 0 <= k < rest.len() - 1 implies after_move(#[trigger] rest[k], rest[k + 1]) by {
            assert(rest[k] == play[k] && rest[k + 1] == play[k + 1]);
            assert(after_move(play[k], play[k + 1]));
        }
        law_moves_keep_settings(rest);
        let a = play[play.len() - 2];
        let b = play.last();
        assert(after_move(a, b));
        assert(rest.last() == a);
        if a.wf() && exists|c: (int, int, int, int), flagged: bool|
            in_bounds(a.size, c) && #[trigger] a.flag_toggled(c, b, flagged) {
            let (c, flagged) = choose|c: (int, int, int, int), flagged: bool|
                in_bounds(a.size, c) && #[trigger] a.flag_toggled(c, b, flagged);
            lemma_encode(a.size, c);
            assert(a.mines() =~= b.mines()) by {
                assert forall|j: int| 0 <= j < a.tiles.len() implies a.tiles[j].has_mine == b.tiles[j].has_mine by {
                    assert(a.board()[j] == marks(a.tiles[j]));
                    assert(b.board()[j] == marks(b.tiles[j]));
                }
            }
        }
    }
}

/// A revealed tile never carries a flag: toggling the flag of a tile leaves
/// a revealed one unflagged, and uncovering a tile takes its flag off.
pub proof fn law_revealed_tile_unflagged(t: TileView)
    ensures
        !((TileView { flagged: !(t.flagged || t.revealed), ..t }).flagged && t.revealed),
        !(TileView { revealed: true, flagged: false, ..t }).flagged,
{
}

/// The number of mines around the tile at position `i`, less, with the
/// count shown relative to flags, the flags around it: counted on the board.
pub open spec fn mines_left_around(f: FieldView, i: int) -> int {
    let n = nbr_set(f.size, i);
    if f.delta {
        n.intersect(f.mines()).len() - n.intersect(f.flags()).len()
    } else {
        n.intersect(f.mines()).len() as int
    }
}

/// A revealed tile without a mine or debug mark, with hidden neighbours
/// left that no flag accounts for or mines left around it, shows the
/// number of mines around it (less the flags around it when the count is
/// relative to flags): while the game runs, and just the same once it is
/// lost.
pub proof fn law_revealed_tile_shows_its_count(f: FieldView, c: Quad)
    requires
        f.wf(),
        in_bounds(f.size, c),
        f.tile(c).revealed,
        !f.tile(c).has_mine,
        !f.tile(c).debug_marked,
        !(nbr_set(f.size, encode(f.size, c)).intersect(f.hidden()).len() == nbr_set(
            f.size,
            encode(f.size, c),
        ).intersect(f.flags()).len() && mines_left_around(f, encode(f.size, c)) == 0),
    ensures
        -80 <= mines_left_around(f, encode(f.size, c)) <= 80,
        f.query(c) == QueryResult::Revealed(mines_left_around(f, encode(f.size, c)) as i16),
        f.query_gameover(c) == QueryResult::Revealed(mines_left_around(f, encode(f.size, c)) as i16),
{
    let i = encode(f.size, c);
    lemma_encode(f.size, c);
    assert(f.tile_ok(i));
    super::lemma_wf_sane(f);
    assert(0 <= f.tiles[i].true_minecount <= 80 && 0 <= f.tiles[i].flagged_neighbours <= 80);
}

/// The draws decide whether a start succeeds: two starts of the same field
/// from the same draws both succeed or both fail.
pub proof fn law_draws_decide_start(
    f: FieldView,
    d: Seq<u32>,
    first: FieldView,
    first_ok: bool,
    second: FieldView,
    second_ok: bool,
)
    requires
        start_run(f, d, first, first_ok),
        start_run(f, d, second, second_ok),
    ensures
        first_ok == second_ok,
{
    if first_ok && !second_ok {
        assert(super::starts_at(f, d, d.len() - 1));
    }
    if second_ok && !first_ok {
        assert(super::starts_at(f, d, d.len() - 1));
    }
}

} // verus!
