//! The first version of the game: tiles count their mined and flagged
//! neighbours, a reveal cascades through tiles that show zero, and the field
//! counts down the mines left to flag.
pub mod laws;

use vstd::prelude::*;
use std::ops::Range;
use crate::grid::{
    decode, encode, in_bounds, lemma_box_count_small, lemma_decode, lemma_encode,
    lemma_nbr_set_size, lemma_nbr_symmetric, nbr_set, positive, volume, Quad,
};
use crate::minesweeper::neighbours::{
    coord_indices, lemma_neighbour_indices, lists_box, neighbours_within, ordinate_range, ranges_fit,
};
use crate::minesweeper::{
    lemma_count_insert, lemma_count_remove, lemma_encode_injective_coords, lemma_equal_counts,
    pending, stack_contains,
};
use crate::minesweeper::placement::{laid_by, place_mines, placed, position_set};

pub use crate::minesweeper::coordinate::{coordinate, Coordinate, Ordinate};

verus! {

/// What a tile holds.
pub struct TileState {
    pub has_mine: bool,
    pub flagged: bool,
    pub revealed: bool,
    /// How many neighbours hold a mine.
    pub minecount: int,
    /// How many neighbours carry a flag.
    pub flagged_minecount: int,
}

pub struct Tile {
    has_mine: bool,
    is_flagged: bool,
    is_revealed: bool,
    minecount: u16,
    flagged_minecount: u16,
}

impl View for Tile {
    type V = TileState;

    closed spec fn view(&self) -> TileState {
        TileState {
            has_mine: self.has_mine,
            flagged: self.is_flagged,
            revealed: self.is_revealed,
            minecount: self.minecount as int,
            flagged_minecount: self.flagged_minecount as int,
        }
    }
}

impl Tile {
    /// A hidden, unflagged tile that has counted no neighbours yet.
    pub fn new(has_mine: bool) -> (t: Self)
        ensures
            t@ == (TileState {
                has_mine,
                flagged: false,
                revealed: false,
                minecount: 0,
                flagged_minecount: 0,
            }),
    {
        Self { has_mine, is_flagged: false, is_revealed: false, minecount: 0, flagged_minecount: 0 }
    }

    pub fn has_mine(&self) -> (r: bool)
        ensures
            r == self@.has_mine,
    {
        self.has_mine
    }

    pub fn minecount(&self) -> (r: u16)
        ensures
            r == self@.minecount,
    {
        self.minecount
    }

    /// The mines around the tile that no flag accounts for.
    pub fn delta_minecount(&self) -> (r: i16)
        requires
            self@.minecount <= i16::MAX,
            self@.flagged_minecount <= i16::MAX,
        ensures
            r == self@.minecount - self@.flagged_minecount,
    {
        self.minecount as i16 - self.flagged_minecount as i16
    }

    pub fn is_flagged(&self) -> (r: bool)
        ensures
            r == self@.flagged,
    {
        self.is_flagged
    }

    pub fn is_revealed(&self) -> (r: bool)
        ensures
            r == self@.revealed,
    {
        self.is_revealed
    }

    /// One flag fewer among the neighbours; refuses to go below zero.
    pub(crate) fn decrease_flagged_minecount(&mut self) -> (r: Result<(), String>)
        ensures
            old(self)@.flagged_minecount == 0 ==> final(self)@ == old(self)@ && (r matches Err(msg)
                && msg@ == "Cannot decrease flagged minecount below 0."@),
            old(self)@.flagged_minecount > 0 ==> r is Ok && final(self)@ == (TileState {
                flagged_minecount: old(self)@.flagged_minecount - 1,
                ..old(self)@
            }),
    {
        if self.flagged_minecount == 0 {
            return Err("Cannot decrease flagged minecount below 0.".to_owned());
        }
        self.flagged_minecount -= 1;
        Ok(())
    }

    /// One flag more among the neighbours.
    pub(crate) fn increase_flagged_minecount(&mut self) -> (r: Result<(), String>)
        requires
            old(self)@.flagged_minecount < u16::MAX,
        ensures
            r is Ok,
            final(self)@ == (TileState {
                flagged_minecount: old(self)@.flagged_minecount + 1,
                ..old(self)@
            }),
    {
        self.flagged_minecount += 1;
        Ok(())
    }

    /// Puts a flag on a hidden tile or takes it off; a revealed tile never
    /// carries a flag.
    pub(crate) fn toggle_flagged(&mut self)
        ensures
            final(self)@ == (TileState {
                flagged: !(old(self)@.flagged || old(self)@.revealed),
                ..old(self)@
            }),
    {
        self.is_flagged = !(self.is_flagged || self.is_revealed);
    }

    /// Reveals the tile, dropping any flag.
    pub(crate) fn uncover(&mut self)
        ensures
            final(self)@ == (TileState { revealed: true, flagged: false, ..old(self)@ }),
    {
        self.is_revealed = true;
        self.is_flagged = false
    }
}

/// Everything a field of the first version holds, as mathematical values.
pub struct GameView {
    pub size: Quad,
    pub tiles: Seq<TileState>,
    pub mines_remaining: int,
    pub delta: bool,
}

impl GameView {
    /// The size is positive and the tile vector has one tile per coordinate.
    pub open spec fn shape_ok(self) -> bool {
        &&& positive(self.size)
        &&& self.tiles.len() == volume(self.size)
        &&& volume(self.size) + 2 <= usize::MAX
    }

    pub open spec fn tile(self, c: Quad) -> TileState {
        self.tiles[encode(self.size, c)]
    }

    pub open spec fn mines(self) -> Set<int> {
        Set::new(|j: int| 0 <= j < self.tiles.len() && self.tiles[j].has_mine)
    }

    pub open spec fn flags(self) -> Set<int> {
        Set::new(|j: int| 0 <= j < self.tiles.len() && self.tiles[j].flagged)
    }

    /// How many neighbours of the tile at position `i` belong to `set`.
    pub open spec fn around(self, i: int, set: Set<int>) -> int {
        nbr_set(self.size, i).intersect(set).len() as int
    }

    /// The counters of the tile at position `i` agree with its neighbours,
    /// and it is not both flagged and revealed.
    pub open spec fn tile_ok(self, i: int) -> bool {
        let t = self.tiles[i];
        &&& t.minecount == self.around(i, self.mines())
        &&& t.flagged_minecount == self.around(i, self.flags())
        &&& !(t.flagged && t.revealed)
    }

    /// The invariant of the field: every counter agrees with the board.
    pub open spec fn wf(self) -> bool {
        &&& self.shape_ok()
        &&& forall|i: int| 0 <= i < self.tiles.len() ==> #[trigger] self.tile_ok(i)
    }

    /// The number a revealed tile shows.
    pub open spec fn shown(self, i: int) -> int {
        if self.delta {
            self.tiles[i].minecount - self.tiles[i].flagged_minecount
        } else {
            self.tiles[i].minecount
        }
    }

    /// What a player sees at `c`.
    pub open spec fn query(self, c: Quad) -> QueryResult {
        let t = self.tile(c);
        if t.flagged {
            QueryResult::Flagged
        } else if !t.revealed {
            QueryResult::Blank
        } else if t.has_mine {
            QueryResult::Mine
        } else {
            QueryResult::Revealed(self.shown(encode(self.size, c)) as i16)
        }
    }

    /// The tile at position `n` can be revealed: it is hidden and carries no flag.
    pub open spec fn eligible(self, n: int) -> bool {
        0 <= n < self.tiles.len() && !self.tiles[n].revealed && !self.tiles[n].flagged
    }

    /// `t` holds `start`, and with every tile that shows zero it holds
    /// every neighbour that can be revealed.
    pub open spec fn closed_from(self, start: int, t: Set<int>) -> bool {
        &&& t.contains(start)
        &&& forall|a: int, n: int|
            #![trigger t.contains(a), nbr_set(self.size, a).contains(n)]
            0 <= a < self.tiles.len() && t.contains(a) && self.shown(a) == 0 && nbr_set(
                self.size,
                a,
            ).contains(n) && self.eligible(n) ==> t.contains(n)
    }

    /// The positions revealed in `after` that were hidden in `self`.
    pub open spec fn revealed_since(self, after: GameView) -> Set<int> {
        Set::new(|j: int| 0 <= j < self.tiles.len() && after.tiles[j].revealed && !self.tiles[j].revealed)
    }

    /// `after` differs from `self` only in tiles that were revealed.
    pub open spec fn only_reveals(self, after: GameView) -> bool {
        &&& after.size == self.size
        &&& after.tiles.len() == self.tiles.len()
        &&& after.mines_remaining == self.mines_remaining
        &&& after.delta == self.delta
        &&& forall|j: int|
            0 <= j < self.tiles.len() ==> (#[trigger] after.tiles[j]).has_mine
                == self.tiles[j].has_mine && after.tiles[j].flagged == self.tiles[j].flagged
                && after.tiles[j].minecount == self.tiles[j].minecount
                && after.tiles[j].flagged_minecount == self.tiles[j].flagged_minecount && (
                self.tiles[j].revealed ==> after.tiles[j].revealed)
    }

    /// The positions that a reveal at position `i0` has reached in `after`:
    /// `i0` and every tile revealed since `self`.
    pub open spec fn reached(self, after: GameView, i0: int) -> Set<int> {
        self.revealed_since(after).insert(i0)
    }

    /// `after` is what a reveal at `c` leaves of `self`, succeeding (`ok`)
    /// exactly when the tiles it reached hold no mine: the field stays well
    /// formed, only revealed marks change, `c` is revealed, no more than
    /// the cascade from `c` is revealed, and a successful reveal revealed
    /// all of it.
    pub open spec fn revealed_from(self, c: Quad, after: GameView, ok: bool) -> bool {
        let i0 = encode(self.size, c);
        let reached = self.reached(after, i0);
        &&& after.wf()
        &&& self.only_reveals(after)
        &&& after.tile(c).revealed
        &&& forall|t: Set<int>| self.closed_from(i0, t) ==> self.revealed_since(after).subset_of(t)
        &&& self.flags_correct() && !self.tile(c).has_mine ==> ok
        &&& ok ==> self.closed_from(i0, reached) && forall|j: int|
            reached.contains(j) ==> !after.tiles[j].has_mine
        &&& !ok ==> exists|j: int| reached.contains(j) && after.tiles[j].has_mine
    }

    /// Every flag stands on a mine.
    pub open spec fn flags_correct(self) -> bool {
        self.flags().subset_of(self.mines())
    }

    /// Where the mines, flags and revealed tiles are; in a well-formed
    /// field it determines every counter.
    pub open spec fn board(self) -> Seq<(bool, bool, bool)> {
        self.tiles.map_values(|t: TileState| (t.has_mine, t.flagged, t.revealed))
    }

    /// `after` is `self` with the flag on the tile at `c` put on (when
    /// `flagged`) or taken off, the counters brought up to date, and the
    /// count of mines left lowered by one whichever way the flag went.
    pub open spec fn flag_toggled(self, c: Quad, after: GameView, flagged: bool) -> bool {
        let t = self.tile(c);
        &&& after.wf()
        &&& flagged == !t.flagged
        &&& after.board() == self.board().update(encode(self.size, c), (t.has_mine, flagged, false))
        &&& after.size == self.size
        &&& after.delta == self.delta
        &&& after.mines_remaining == self.mines_remaining - 1
    }
}

/// A game of the first version.
pub struct Minefield {
    size: Coordinate,
    tiles: Vec<Tile>,
    mines_remaining: i16,
    delta: bool,
}

impl View for Minefield {
    type V = GameView;

    closed spec fn view(&self) -> GameView {
        GameView {
            size: self.size@,
            tiles: self.tiles@.map_values(|t: Tile| t@),
            mines_remaining: self.mines_remaining as int,
            delta: self.delta,
        }
    }
}

/// What a tile looks like to the player.
#[derive(PartialEq, Eq, Structural, Debug)]
pub enum QueryResult {
    Blank,
    Flagged,
    Revealed(i16),
    Mine,
}

/// In a well-formed field every counter of every tile is below 81.
pub(crate) proof fn lemma_counts_small(f: GameView, i: int)
    requires
        f.wf(),
        0 <= i < f.tiles.len(),
    ensures
        0 <= f.tiles[i].minecount <= 80,
        0 <= f.tiles[i].flagged_minecount <= 80,
        f.tiles[i].flagged_minecount <= f.tiles[i].minecount || !f.flags_correct(),
{
    assert(f.tile_ok(i));
    lemma_nbr_set_size(f.size, i);
    lemma_decode(f.size, i);
    lemma_box_count_small(f.size, decode(f.size, i));
    vstd::set_lib::lemma_len_intersect(nbr_set(f.size, i), f.mines());
    vstd::set_lib::lemma_len_intersect(nbr_set(f.size, i), f.flags());
    if f.flags_correct() {
        assert(nbr_set(f.size, i).intersect(f.flags()).subset_of(nbr_set(f.size, i).intersect(f.mines())));
        vstd::set_lib::lemma_len_subset(
            nbr_set(f.size, i).intersect(f.flags()),
            nbr_set(f.size, i).intersect(f.mines()),
        );
    }
}

/// The neighbour ranges of a tile on a field of this shape fit in `usize`.
proof fn lemma_game_ranges(f: GameView, c: Quad)
    requires
        f.shape_ok(),
        in_bounds(f.size, c),
    ensures
        ranges_fit(f.size, c, 1),
        0 <= encode(f.size, c) < f.tiles.len(),
{
    let s = f.size;
    assert(s.0 <= volume(s) && s.1 <= volume(s) && s.2 <= volume(s) && s.3 <= volume(s))
        by (nonlinear_arith)
        requires
            positive(s),
    ;
    lemma_encode(s, c);
}

/// Around a tile that shows zero while every flag stands on a mine, every
/// unflagged neighbour is free of mines.
proof fn lemma_game_zero_safe(f: GameView, j: int, x: int)
    requires
        f.wf(),
        0 <= j < f.tiles.len(),
        f.flags_correct(),
        f.shown(j) == 0,
        nbr_set(f.size, j).contains(x),
        !f.tiles[x].flagged,
    ensures
        !f.tiles[x].has_mine,
{
    assert(f.tile_ok(j));
    lemma_nbr_set_size(f.size, j);
    let n = nbr_set(f.size, j);
    if f.delta {
        lemma_equal_counts(n, f.flags(), f.mines());
        assert(!n.intersect(f.flags()).contains(x));
    } else {
        vstd::set_lib::lemma_len_intersect(n, f.mines());
        assert(n.intersect(f.mines()).len() == 0);
        if f.tiles[x].has_mine {
            assert(n.intersect(f.mines()).contains(x));
        }
    }
}

impl Minefield {
    /// Lays `mine_count` mines at random positions and counts, for every
    /// tile, the mines around it. Refuses an empty field and more mines than
    /// tiles.
    pub fn new(size: Coordinate, mine_count: u16) -> (r: Result<Self, String>)
        requires
            size@.0 * size@.1 <= usize::MAX,
            size@.0 * size@.1 * size@.2 <= usize::MAX,
            size@.0 * size@.1 * size@.2 * size@.3 + 2 <= usize::MAX,
        ensures
            match r {
                Ok(field) => {
                    &&& volume(size@) >= 1
                    &&& mine_count <= volume(size@)
                    &&& field@.wf()
                    &&& field@.size == size@
                    &&& field@.mines().len() == mine_count
                    &&& exists|d: Seq<u32>, ps: Seq<usize>|
                        #[trigger] laid_by(d, volume(size@), ps) && field@.mines() == position_set(ps)
                    &&& field@.mines_remaining == mine_count as i16
                    &&& field@.delta
                    &&& forall|j: int|
                        0 <= j < field@.tiles.len() ==> !(#[trigger] field@.tiles[j]).flagged
                            && !field@.tiles[j].revealed
                },
                Err(e) => (volume(size@) == 0 && e@ == "Minefield dimensions cannot be zero."@) || (
                volume(size@) >= 1 && volume(size@) < mine_count && e@
                    == "Mine count is too large for the given board dimensions."@),
            },
    {
        let ghost s = size@;
        let n = size.x() * size.y() * size.z() * size.w();
        if n == 0 {
            return Err("Minefield dimensions cannot be zero.".to_owned());
        }
        if n < mine_count as usize {
            return Err("Mine count is too large for the given board dimensions.".to_owned());
        }
        proof {
            assert(positive(s)) by {
                if s.0 == 0 || s.1 == 0 || s.2 == 0 || s.3 == 0 {
                    assert(s.0 * s.1 * s.2 * s.3 == 0) by (nonlinear_arith)
                        requires
                            s.0 == 0 || s.1 == 0 || s.2 == 0 || s.3 == 0,
                    ;
                }
            }
        }
        let (mined, mine_positions) = place_mines(n, mine_count);

        let mut tiles: Vec<Tile> = Vec::new();
        let mut i: usize = 0;
        while i < n
            invariant
                n == volume(s),
                mined@.len() == n,
                i <= n,
                tiles.len() == i,
                forall|j: int|
                    0 <= j < i ==> (#[trigger] tiles@[j])@ == (TileState {
                        has_mine: mined@[j],
                        flagged: false,
                        revealed: false,
                        minecount: 0,
                        flagged_minecount: 0,
                    }),
            decreases n - i,
        {
            tiles.push(Tile::new(mined[i]));
            i += 1;
        }

        let mut field = Self { size, tiles, mines_remaining: mine_count as i16, delta: true };
        let ghost f0 = field@;
        let ghost mut counted: Set<int> = Set::empty();
        proof {
            assert forall|j: int| 0 <= j < f0.tiles.len() implies #[trigger] f0.tiles[j] == (TileState {
                has_mine: mined@[j],
                flagged: false,
                revealed: false,
                minecount: 0,
                flagged_minecount: 0,
            }) by {
                assert(f0.tiles[j] == field.tiles@[j]@);
            }
            assert forall|j: int| 0 <= j < f0.tiles.len() implies field@.tiles[j].minecount
                == nbr_set(s, j).intersect(counted).len() by {
                assert(nbr_set(s, j).intersect(counted) =~= Set::empty());
            }
        }
        let mut p: usize = 0;
        while p < mine_positions.len()
            invariant
                f0.shape_ok(),
                f0.size == s,
                s == size@,
                positive(s),
                field@ == (GameView { tiles: field@.tiles, ..f0 }),
                field@.tiles.len() == f0.tiles.len(),
                placed(mined@, mine_positions@, n as int),
                mine_positions.len() == mine_count,
                n == volume(s),
                p <= mine_positions.len(),
                counted.finite(),
                counted.len() <= p,
                forall|m: int| 0 <= m < p ==> counted.contains(#[trigger] mine_positions@[m] as int),
                forall|j: int|
                    counted.contains(j) ==> exists|m: int|
                        0 <= m < p && #[trigger] mine_positions@[m] as int == j,
                forall|j: int|
                    0 <= j < f0.tiles.len() ==> #[trigger] f0.tiles[j] == (TileState {
                        has_mine: mined@[j],
                        flagged: false,
                        revealed: false,
                        minecount: 0,
                        flagged_minecount: 0,
                    }),
                forall|j: int|
                    0 <= j < f0.tiles.len() ==> (#[trigger] field@.tiles[j]) == (TileState {
                        minecount: nbr_set(s, j).intersect(counted).len() as int,
                        ..f0.tiles[j]
                    }),
            decreases mine_positions.len() - p,
        {
            let index = mine_positions[p];
            let coord = field.convert_index(index);
            let ghost q = index as int;
            proof {
                lemma_decode(s, q);
                lemma_game_ranges(field@, coord@);
                lemma_nbr_set_size(s, q);
                assert(!counted.contains(q)) by {
                    if counted.contains(q) {
                        let m = choose|m: int| 0 <= m < p && #[trigger] mine_positions@[m] as int == q;
                        assert(mine_positions@[m] != mine_positions@[p as int]);
                    }
                }
            }
            let neighbours = field.get_neighbours(coord, 1);
            let ghost idxs = coord_indices(s, neighbours@);
            let ghost next = counted.insert(q);
            let ghost f1 = field@;
            proof {
                lemma_neighbour_indices(s, coord@, neighbours@);
            }
            let mut k: usize = 0;
            while k < neighbours.len()
                invariant
                    f0.shape_ok(),
                    f0.size == s,
                    field@ == (GameView { tiles: field@.tiles, ..f0 }),
                    field@.tiles.len() == f0.tiles.len(),
                    mine_positions.len() == mine_count,
                    p < mine_positions.len(),
                    n == volume(s),
                    0 <= q < n,
                    encode(s, coord@) == q,
                    counted.finite(),
                    counted.len() <= p,
                    !counted.contains(q),
                    next == counted.insert(q),
                    idxs == coord_indices(s, neighbours@),
                    idxs.len() == neighbours.len(),
                    0 <= k <= neighbours.len(),
                    forall|m: int| 0 <= m < neighbours.len() ==> in_bounds(s, #[trigger] neighbours@[m]@),
                    forall|m1: int, m2: int|
                        0 <= m1 < neighbours.len() && 0 <= m2 < neighbours.len() && m1 != m2
                            ==> idxs[m1] != idxs[m2],
                    forall|m: int|
                        0 <= m < neighbours.len() ==> nbr_set(s, q).contains(#[trigger] idxs[m]),
                    forall|j: int|
                        0 <= j < f0.tiles.len() ==> (#[trigger] field@.tiles[j]) == (TileState {
                            minecount: field@.tiles[j].minecount,
                            ..f1.tiles[j]
                        }),
                    forall|j: int|
                        0 <= j < f0.tiles.len() && !nbr_set(s, q).contains(j)
                            ==> #[trigger] field@.tiles[j].minecount == f1.tiles[j].minecount,
                    forall|m: int|
                        0 <= m < k ==> field@.tiles[#[trigger] idxs[m]].minecount == nbr_set(
                            s,
                            idxs[m],
                        ).intersect(next).len(),
                    forall|m: int|
                        k <= m < neighbours.len() ==> field@.tiles[#[trigger] idxs[m]].minecount
                            == f1.tiles[idxs[m]].minecount,
                    forall|j: int|
                        0 <= j < f0.tiles.len() ==> #[trigger] f1.tiles[j].minecount == nbr_set(
                            s,
                            j,
                        ).intersect(counted).len(),
                decreases neighbours.len() - k,
            {
                let neighbour = neighbours[k];
                let ghost j = idxs[k as int];
                let ghost before = field@;
                proof {
                    lemma_game_ranges(field@, neighbour@);
                    lemma_nbr_set_size(s, j);
                    lemma_symmetric_count(s, q, j, counted);
                    vstd::set_lib::lemma_len_intersect(nbr_set(s, j), next);
                    vstd::set_lib::lemma_len_subset(next, next);
                    assert(encode(s, neighbour@) == j);
                    assert(next.len() == counted.len() + 1);
                    vstd::set_lib::lemma_len_subset(nbr_set(s, j).intersect(next), next);
                }
                let tile = field.index_mut(neighbour);
                tile.minecount += 1;
                proof {
                    assert forall|m: int| 0 <= m < k implies field@.tiles[#[trigger] idxs[m]].minecount
                        == nbr_set(s, idxs[m]).intersect(next).len() by {
                        assert(idxs[m] != j);
                        assert(field@.tiles[idxs[m]] == before.tiles[idxs[m]]);
                    }
                    assert forall|m: int| k < m < neighbours.len() implies field@.tiles[
                        #[trigger] idxs[m]].minecount == f1.tiles[idxs[m]].minecount by {
                        assert(idxs[m] != j);
                        assert(field@.tiles[idxs[m]] == before.tiles[idxs[m]]);
                    }
                }
                k += 1;
            }
            proof {
                assert forall|j: int| 0 <= j < f0.tiles.len() implies (#[trigger] field@.tiles[j]) == (TileState {
                    minecount: nbr_set(s, j).intersect(next).len() as int,
                    ..f0.tiles[j]
                }) by {
                    lemma_nbr_set_size(s, j);
                    lemma_nbr_symmetric(s, q, j);
                    lemma_count_insert(nbr_set(s, j), counted, q);
                    if nbr_set(s, q).contains(j) {
                        let m = choose|m: int| 0 <= m < neighbours.len() && #[trigger] idxs[m] == j;
                    }
                    assert(f1.tiles[j] == (TileState {
                        minecount: nbr_set(s, j).intersect(counted).len() as int,
                        ..f0.tiles[j]
                    }));
                }
                assert forall|j: int| next.contains(j) implies exists|m: int|
                    0 <= m < p + 1 && #[trigger] mine_positions@[m] as int == j by {
                    if j != q {
                        let m = choose|m: int| 0 <= m < p && #[trigger] mine_positions@[m] as int == j;
                    }
                }
                counted = next;
            }
            p += 1;
        }
        proof {
            let f = field@;
            assert forall|j: int| #![trigger f.tiles[j]] 0 <= j < f.tiles.len() implies f.tiles[j].has_mine
                == mined@[j] && !f.tiles[j].flagged && !f.tiles[j].revealed
                && f.tiles[j].flagged_minecount == 0 && f.tiles[j].minecount == nbr_set(s, j).intersect(
                counted,
            ).len() by {
                assert(f0.tiles[j].has_mine == mined@[j]);
            }
            assert(counted =~= f.mines()) by {
                assert forall|j: int| f.mines().contains(j) implies counted.contains(j) by {
                    assert(mined@[j]);
                    let m = choose|m: int| 0 <= m < mine_positions.len() && mine_positions@[m] == j;
                    assert(counted.contains(mine_positions@[m] as int));
                }
                assert forall|j: int| counted.contains(j) implies f.mines().contains(j) by {
                    let m = choose|m: int|
                        0 <= m < mine_positions.len() && #[trigger] mine_positions@[m] as int == j;
                    assert(0 <= j < n);
                    assert(mined@[j]);
                }
            }
            assert(f.flags() =~= Set::empty());
            mine_positions@.map_values(|m: usize| m as int).unique_seq_to_set();
            assert(mine_positions@.map_values(|m: usize| m as int).to_set() =~= counted) by {
                assert forall|j: int| counted.contains(j) implies mine_positions@.map_values(
                    |m: usize| m as int,
                ).to_set().contains(j) by {
                    let m = choose|m: int|
                        0 <= m < mine_positions.len() && #[trigger] mine_positions@[m] as int == j;
                    assert(mine_positions@.map_values(|m: usize| m as int)[m] == j);
                }
            }
            assert forall|j: int| 0 <= j < f.tiles.len() implies #[trigger] f.tile_ok(j) by {
                assert(nbr_set(s, j).intersect(f.flags()) =~= Set::empty());
            }
        }
        proof {
            let ps = mine_positions@;
            let f = field@;
            assert(f.mines() =~= position_set(ps)) by {
                assert forall|j: int| f.mines().contains(j) implies position_set(ps).contains(j) by {
                    assert(counted.contains(j));
                    let m = choose|m: int| 0 <= m < mine_positions.len() && #[trigger] mine_positions@[m] as int == j;
                }
                assert forall|j: int| position_set(ps).contains(j) implies f.mines().contains(j) by {
                    let m = choose|m: int| 0 <= m < ps.len() && ps[m] as int == j;
                    assert(counted.contains(mine_positions@[m] as int));
                }
            }
            let d = choose|d: Seq<u32>| #[trigger] laid_by(d, n as int, ps);
            assert(laid_by(d, n as int, ps) && f.mines() == position_set(ps));
        }
        Ok(field)
    }

    /// The values along `ordinate` that lie within `radius` of `coord` and on
    /// the field.
    pub fn iter_ordinate(&self, coord: Coordinate, radius: usize, ordinate: Ordinate) -> (r: Range<
        usize,
    >)
        requires
            ordinate.of(coord@) + radius + 1 <= usize::MAX,
            ordinate.of(self@.size) + 1 <= usize::MAX,
        ensures
            r.start == crate::grid::span_lo(ordinate.of(coord@), radius as int),
            r.end == crate::grid::span_hi(ordinate.of(coord@), radius as int, ordinate.of(self@.size))
                + 1,
    {
        let val = coord.get_ordinate(ordinate);
        let len = self.length(ordinate);
        ordinate_range(val, len, radius)
    }

    /// Every tile within `radius` of `coord`, `coord` itself left out, in
    /// lexicographic order of (x, y, z, w).
    pub fn get_neighbours(&self, coord: Coordinate, radius: usize) -> (res: Vec<Coordinate>)
        requires
            ranges_fit(self@.size, coord@, radius as int),
        ensures
            lists_box(res@, self@.size, coord@, radius as int),
            in_bounds(self@.size, coord@) ==> res.len() == crate::grid::box_count(
                self@.size,
                coord@,
                radius as int,
            ) - 1,
    {
        neighbours_within(self.size, coord, radius)
    }

    /// The coordinate of the tile at position `index` of the tile vector.
    fn convert_index(&self, index: usize) -> (c: Coordinate)
        requires
            positive(self@.size),
        ensures
            c@ == decode(self@.size, index as int),
    {
        let mut index = index;
        let ghost i0 = index as int;
        let ghost s = self@.size;
        proof {
            vstd::arithmetic::div_mod::lemma_mod_bound(i0, s.0);
            vstd::arithmetic::div_mod::lemma_mod_bound(i0 / s.0, s.1);
            vstd::arithmetic::div_mod::lemma_mod_bound(i0 / s.0 / s.1, s.2);
            vstd::arithmetic::div_mod::lemma_mod_bound(i0 / s.0 / s.1 / s.2, s.3);
        }
        let x = 1 + index % self.size.x();
        index /= self.size.x();
        let y = 1 + index % self.size.y();
        index /= self.size.y();
        let z = 1 + index % self.size.z();
        index /= self.size.z();
        let w = 1 + index % self.size.w();
        coordinate(x, y, z, w)
    }

    /// The position in the tile vector of the tile at `coord`.
    fn convert_coord(&self, coord: Coordinate) -> (r: usize)
        requires
            self@.shape_ok(),
            in_bounds(self@.size, coord@),
        ensures
            r == encode(self@.size, coord@),
            r < self@.tiles.len(),
    {
        let ghost s = self@.size;
        let ghost c = coord@;
        proof {
            lemma_encode(s, c);
            assert(0 <= (c.1 - 1) * s.0 <= (c.1 - 1) * s.0 + (c.0 - 1)) by (nonlinear_arith)
                requires
                    c.1 >= 1,
                    s.0 >= 1,
                    c.0 >= 1,
            ;
            assert(0 <= ((c.2 - 1) + (c.3 - 1) * s.2) && (c.3 - 1) * s.2 >= 0 && s.0 * s.1 >= 1 && (
            c.2 - 1) + (c.3 - 1) * s.2 <= ((c.2 - 1) + (c.3 - 1) * s.2) * (s.0 * s.1) && 0 <= ((
            c.2 - 1) + (c.3 - 1) * s.2) * (s.0 * s.1)) by (nonlinear_arith)
                requires
                    positive(s),
                    positive(c),
            ;
            assert(s.0 * s.1 <= volume(s)) by (nonlinear_arith)
                requires
                    positive(s),
            ;
            assert(s.0 * s.1 <= ((c.2 - 1) + (c.3 - 1) * s.2) * (s.0 * s.1) || (c.2 - 1) + (c.3
                - 1) * s.2 == 0) by (nonlinear_arith)
                requires
                    (c.2 - 1) + (c.3 - 1) * s.2 >= 0,
                    s.0 * s.1 >= 1,
            ;
        }
        (coord.x() - 1) + (coord.y() - 1) * self.size.x() + ((coord.z() - 1) + (coord.w() - 1)
            * self.size.z()) * (self.size.x() * self.size.y())
    }

    /// The tile at `coord`.
    pub fn index(&self, coord: Coordinate) -> (t: &Tile)
        requires
            self@.shape_ok(),
            in_bounds(self@.size, coord@),
        ensures
            t@ == self@.tile(coord@),
    {
        let index = self.convert_coord(coord);
        &self.tiles[index]
    }

    /// The tile at `coord`, for changing it in place.
    pub fn index_mut(&mut self, coord: Coordinate) -> (t: &mut Tile)
        requires
            old(self)@.shape_ok(),
            in_bounds(old(self)@.size, coord@),
        ensures
            t@ == old(self)@.tile(coord@),
            final(self)@.tiles =~= old(self)@.tiles.update(encode(old(self)@.size, coord@), final(t)@),
            final(self)@ == (GameView { tiles: final(self)@.tiles, ..old(self)@ }),
    {
        let index = self.convert_coord(coord);
        &mut self.tiles[index]
    }

    /// Switches between showing the full mine count of a tile and the count
    /// less the flags around it.
    pub fn toggle_delta(&mut self)
        ensures
            final(self)@ == (GameView { delta: !old(self)@.delta, ..old(self)@ }),
    {
        self.delta = !self.delta;
    }

    /// Puts a flag on the hidden tile at `coord`, or takes its flag off, and
    /// updates the flag counts of its neighbours. The count of mines left
    /// goes down by one either way. Returns whether the tile is flagged now.
    pub fn toggle_flagged(&mut self, coord: Coordinate) -> (flagged: bool)
        requires
            old(self)@.wf(),
            in_bounds(old(self)@.size, coord@),
            !old(self)@.tile(coord@).revealed,
            old(self)@.mines_remaining > i16::MIN,
        ensures
            old(self)@.flag_toggled(coord@, final(self)@, flagged),
    {
        let ghost f0 = self@;
        let ghost s = f0.size;
        let ghost i = encode(s, coord@);
        proof {
            lemma_game_ranges(f0, coord@);
            lemma_game_sets_finite(f0);
        }
        let tile = self.index_mut(coord);
        tile.toggle_flagged();
        let flagged = tile.is_flagged();
        let ghost f1 = self@;
        let ghost flags1 = f1.flags();
        proof {
            assert(f0.tile_ok(i));
            if flagged {
                assert(flags1 =~= f0.flags().insert(i));
            } else {
                assert(flags1 =~= f0.flags().remove(i));
            }
            assert(f1.mines() =~= f0.mines());
            lemma_nbr_set_size(s, i);
        }
        let neighbours = self.get_neighbours(coord, 1);
        let ghost idxs = coord_indices(s, neighbours@);
        proof {
            lemma_neighbour_indices(s, coord@, neighbours@);
            assert(!nbr_set(s, i).contains(i));
        }
        let mut k: usize = 0;
        while k < neighbours.len()
            invariant
                f0.wf(),
                s == f0.size,
                i == encode(s, coord@),
                0 <= i < f0.tiles.len(),
                f1.size == s,
                f1.tiles.len() == f0.tiles.len(),
                flagged ==> flags1 == f0.flags().insert(i) && !f0.flags().contains(i),
                !flagged ==> flags1 == f0.flags().remove(i) && f0.flags().contains(i),
                flags1 == f1.flags(),
                forall|j: int|
                    0 <= j < f0.tiles.len() && j != i ==> #[trigger] f1.tiles[j] == f0.tiles[j],
                f1.tiles[i].flagged_minecount == f0.tiles[i].flagged_minecount,
                self@ == (GameView { tiles: self@.tiles, ..f1 }),
                self@.tiles.len() == f1.tiles.len(),
                self@.shape_ok(),
                idxs == coord_indices(s, neighbours@),
                idxs.len() == neighbours.len(),
                0 <= k <= neighbours.len(),
                forall|m: int| 0 <= m < neighbours.len() ==> in_bounds(s, #[trigger] neighbours@[m]@),
                forall|m1: int, m2: int|
                    0 <= m1 < neighbours.len() && 0 <= m2 < neighbours.len() && m1 != m2
                        ==> idxs[m1] != idxs[m2],
                forall|m: int|
                    0 <= m < neighbours.len() ==> nbr_set(s, i).contains(#[trigger] idxs[m]),
                forall|j: int|
                    0 <= j < f1.tiles.len() ==> #[trigger] self@.tiles[j] == (TileState {
                        flagged_minecount: self@.tiles[j].flagged_minecount,
                        ..f1.tiles[j]
                    }),
                forall|j: int|
                    0 <= j < f1.tiles.len() && !nbr_set(s, i).contains(j)
                        ==> #[trigger] self@.tiles[j].flagged_minecount
                        == f1.tiles[j].flagged_minecount,
                forall|m: int|
                    0 <= m < k ==> self@.tiles[#[trigger] idxs[m]].flagged_minecount == f1.around(
                        idxs[m],
                        flags1,
                    ),
                forall|m: int|
                    k <= m < neighbours.len() ==> self@.tiles[#[trigger] idxs[m]].flagged_minecount
                        == f1.tiles[idxs[m]].flagged_minecount,
            decreases neighbours.len() - k,
        {
            let neighbour = neighbours[k];
            let ghost j = idxs[k as int];
            let ghost before = self@;
            proof {
                lemma_game_ranges(self@, neighbour@);
                assert(f0.tile_ok(j));
                assert(j != i);
                lemma_nbr_set_size(s, j);
                lemma_decode(s, j);
                lemma_box_count_small(s, decode(s, j));
                lemma_nbr_symmetric(s, i, j);
                vstd::set_lib::lemma_len_intersect(nbr_set(s, j), flags1);
                if flagged {
                    lemma_count_insert(nbr_set(s, j), f0.flags(), i);
                } else {
                    lemma_count_remove(nbr_set(s, j), f0.flags(), i);
                }
                assert(encode(s, neighbour@) == j);
            }
            let res = if flagged {
                self.index_mut(neighbour).increase_flagged_minecount()
            } else {
                self.index_mut(neighbour).decrease_flagged_minecount()
            };
            res.unwrap();
            proof {
                assert forall|m: int| 0 <= m < k implies self@.tiles[#[trigger] idxs[m]].flagged_minecount
                    == f1.around(idxs[m], flags1) by {
                    assert(idxs[m] != j);
                    assert(self@.tiles[idxs[m]] == before.tiles[idxs[m]]);
                }
                assert forall|m: int| k < m < neighbours.len() implies self@.tiles[
                    #[trigger] idxs[m]].flagged_minecount == f1.tiles[idxs[m]].flagged_minecount by {
                    assert(idxs[m] != j);
                    assert(self@.tiles[idxs[m]] == before.tiles[idxs[m]]);
                }
            }
            k += 1;
        }
        self.mines_remaining -= 1;
        proof {
            let f2 = self@;
            assert(f2.mines() =~= f0.mines());
            assert(f2.flags() =~= flags1);
            assert forall|j: int| 0 <= j < f2.tiles.len() implies #[trigger] f2.tile_ok(j) by {
                assert(f0.tile_ok(j));
                lemma_nbr_set_size(s, j);
                lemma_nbr_symmetric(s, i, j);
                if flagged {
                    lemma_count_insert(nbr_set(s, j), f0.flags(), i);
                } else {
                    lemma_count_remove(nbr_set(s, j), f0.flags(), i);
                }
                if nbr_set(s, i).contains(j) {
                    let m = choose|m: int| 0 <= m < neighbours.len() && #[trigger] idxs[m] == j;
                    assert(self@.tiles[idxs[m]].flagged_minecount == f1.around(idxs[m], flags1));
                    assert(j != i);
                } else {
                    assert(f2.tiles[j].flagged_minecount == f1.tiles[j].flagged_minecount);
                    if j != i {
                        assert(f1.tiles[j] == f0.tiles[j]);
                    }
                }
                assert(f2.around(j, f2.flags()) == f1.around(j, flags1));
                assert(f2.around(j, f2.mines()) == f0.around(j, f0.mines()));
            }
            assert(f2.board() =~= f0.board().update(
                i,
                (f0.tile(coord@).has_mine, flagged, false),
            ));
        }
        flagged
    }

    /// Reveals the unflagged tile at `coord`. When it shows zero, every
    /// hidden unflagged neighbour is revealed in turn, and so on from every
    /// revealed tile that shows zero. Fails as soon as a revealed tile holds
    /// a mine.
    pub fn reveal_tile(&mut self, coord: Coordinate) -> (r: Result<(), String>)
        requires
            old(self)@.wf(),
            in_bounds(old(self)@.size, coord@),
            !old(self)@.tile(coord@).flagged,
        ensures
            final(self)@.wf(),
            old(self)@.only_reveals(final(self)@),
            final(self)@.tile(coord@).revealed,
            forall|t: Set<int>|
                old(self)@.closed_from(encode(old(self)@.size, coord@), t) ==> old(
                    self,
                )@.revealed_since(final(self)@).subset_of(t),
            old(self)@.flags_correct() && !old(self)@.tile(coord@).has_mine ==> r is Ok,
            match r {
                Ok(()) => {
                    let reached = old(self)@.reached(final(self)@, encode(old(self)@.size, coord@));
                    &&& old(self)@.closed_from(encode(old(self)@.size, coord@), reached)
                    &&& forall|j: int| reached.contains(j) ==> !final(self)@.tiles[j].has_mine
                },
                Err(e) => {
                    &&& e@ == "There was a mine there!"@
                    &&& exists|j: int|
                        old(self)@.reached(final(self)@, encode(old(self)@.size, coord@)).contains(j)
                            && final(self)@.tiles[j].has_mine
                },
            },
    {
        let ghost f0 = self@;
        let ghost s = f0.size;
        let ghost i0 = encode(s, coord@);
        let ghost safe = f0.flags_correct() && !f0.tiles[i0].has_mine;
        proof {
            lemma_game_ranges(f0, coord@);
        }
        self.index_mut(coord).uncover();
        let ghost mut reached: Set<int> = set![i0];
        proof {
            assert(revealed_as(f0, self@, reached));
            lemma_revealed_as(f0, self@, reached, i0);
            lemma_counts_small(self@, i0);
            lemma_reached_small(f0, reached);
            assert(within_closed(f0, i0, Seq::empty(), reached));
        }
        match self.query_tile(coord) {
            QueryResult::Mine => {
                proof {
                    assert(reached.contains(i0));
                }
                return Err("There was a mine there!".to_owned());
            },
            QueryResult::Revealed(0) => {},
            QueryResult::Revealed(_) => {
                proof {
                    assert forall|a: int, n: int|
                        0 <= a < f0.tiles.len() && reached.contains(a) && f0.shown(a) == 0
                            && nbr_set(s, a).contains(n) && f0.eligible(n) implies reached.contains(n) by {
                        assert(a == i0);
                    }
                }
                return Ok(());
            },
            QueryResult::Blank | QueryResult::Flagged => {
                proof {
                    assert(false);
                }
            },
        }
        let mut stack: Vec<Coordinate> = Vec::new();
        stack.push(coord);
        proof {
            assert(coord_indices(s, stack@)[0] == i0);
            assert(within_closed(f0, i0, coord_indices(s, stack@), reached));
        }
        while stack.len() > 0
            invariant
                f0 == old(self)@,
                f0.wf(),
                s == f0.size,
                in_bounds(s, coord@),
                i0 == encode(s, coord@),
                0 <= i0 < f0.tiles.len(),
                !f0.tiles[i0].flagged,
                safe == (f0.flags_correct() && !f0.tiles[i0].has_mine),
                revealed_as(f0, self@, reached),
                reached.contains(i0),
                reached.finite(),
                reached.len() <= f0.tiles.len(),
                forall|x: int| #[trigger] reached.contains(x) ==> x == i0 || f0.eligible(x),
                forall|x: int| #[trigger] reached.contains(x) ==> !f0.tiles[x].has_mine,
                zero_stack(f0, stack@, reached),
                within_closed(f0, i0, coord_indices(s, stack@), reached),
                progress(f0, coord_indices(s, stack@), reached, -1),
            decreases f0.tiles.len() - reached.len(), stack.len(),
        {
            let ghost old_stack = stack@;
            let c = stack.pop().unwrap();
            let ghost j = encode(s, c@);
            let ghost st_all = coord_indices(s, old_stack);
            let ghost reached0 = reached;
            let ghost popped_len = stack.len();
            proof {
                assert(old_stack =~= stack@.push(c));
                assert(st_all[st_all.len() - 1] == j);
                lemma_game_ranges(f0, c@);
                lemma_nbr_set_size(s, j);
                assert(forall|t: Set<int>| #[trigger] f0.closed_from(i0, t) ==> t.contains(st_all[st_all.len() - 1]));
                assert forall|m: int| 0 <= m < stack@.len() implies coord_indices(s, stack@)[m] == #[trigger] st_all[m] by {
                    assert(stack@[m] == old_stack[m]);
                }
                assert(zero_stack(f0, stack@, reached)) by {
                    assert forall|m: int| 0 <= m < stack@.len() implies #[trigger] stack@[m] == old_stack[m] by {}
                }
                assert(within_closed(f0, i0, coord_indices(s, stack@), reached)) by {
                    assert forall|t: Set<int>| #[trigger] f0.closed_from(i0, t) implies reached.subset_of(t)
                        && forall|m: int| 0 <= m < stack@.len() ==> t.contains(#[trigger] coord_indices(s, stack@)[m]) by {
                        assert forall|m: int| 0 <= m < stack@.len() implies t.contains(#[trigger] coord_indices(s, stack@)[m]) by {
                            assert(coord_indices(s, stack@)[m] == st_all[m]);
                        }
                    }
                }
                assert(progress(f0, coord_indices(s, stack@), reached, j)) by {
                    assert forall|a: int| #[trigger] reached.contains(a) && a != j && f0.shown(a) == 0 implies pending(
                        coord_indices(s, stack@),
                        a,
                    ) || covered(f0, a, reached) by {
                        if pending(st_all, a) {
                            let m = choose|m: int| 0 <= m < st_all.len() && st_all[m] == a;
                            assert(m < stack@.len());
                            assert(coord_indices(s, stack@)[m] == a);
                        }
                    }
                }
            }
            let neighbours = self.get_neighbours(c, 1);
            let ghost idxs = coord_indices(s, neighbours@);
            proof {
                lemma_neighbour_indices(s, c@, neighbours@);
            }
            let mut k: usize = 0;
            while k < neighbours.len()
                invariant
                    f0 == old(self)@,
                    f0.wf(),
                    s == f0.size,
                    i0 == encode(s, coord@),
                    0 <= i0 < f0.tiles.len(),
                    !f0.tiles[i0].flagged,
                    safe == (f0.flags_correct() && !f0.tiles[i0].has_mine),
                    revealed_as(f0, self@, reached),
                    reached.contains(i0),
                    reached.finite(),
                    reached.len() <= f0.tiles.len(),
                    reached0.subset_of(reached),
                    reached0.finite(),
                    stack@.len() <= popped_len || reached.len() > reached0.len(),
                    forall|x: int| #[trigger] reached.contains(x) ==> x == i0 || f0.eligible(x),
                    forall|x: int| #[trigger] reached.contains(x) ==> !f0.tiles[x].has_mine,
                    zero_stack(f0, stack@, reached),
                    within_closed(f0, i0, coord_indices(s, stack@), reached),
                    forall|t: Set<int>| #[trigger] f0.closed_from(i0, t) ==> t.contains(j),
                    progress(f0, coord_indices(s, stack@), reached, j),
                    in_bounds(s, c@),
                    j == encode(s, c@),
                    0 <= j < f0.tiles.len(),
                    reached.contains(j),
                    f0.shown(j) == 0,
                    idxs == coord_indices(s, neighbours@),
                    idxs.len() == neighbours.len(),
                    forall|m: int| 0 <= m < neighbours.len() ==> in_bounds(s, #[trigger] neighbours@[m]@),
                    forall|m: int| 0 <= m < neighbours.len() ==> nbr_set(s, j).contains(#[trigger] idxs[m]),
                    forall|n: int|
                        nbr_set(s, j).contains(n) ==> exists|m: int|
                            0 <= m < neighbours.len() && #[trigger] idxs[m] == n,
                    0 <= k <= neighbours.len(),
                    forall|m: int| 0 <= m < k && f0.eligible(#[trigger] idxs[m]) ==> reached.contains(idxs[m]),
                decreases neighbours.len() - k,
            {
                let neighbour = neighbours[k];
                let ghost n = idxs[k as int];
                proof {
                    lemma_game_ranges(f0, neighbour@);
                    assert(encode(s, neighbour@) == n);
                    lemma_revealed_as(f0, self@, reached, i0);
                }
                let tile = self.index(neighbour);
                if tile.is_revealed() || tile.is_flagged() {
                    proof {
                        assert(!f0.eligible(n) || reached.contains(n));
                    }
                    k += 1;
                    continue;
                }
                let ghost prev_stack = stack@;
                self.index_mut(neighbour).uncover();
                proof {
                    assert(f0.eligible(n));
                    assert(!reached.contains(n));
                    let grown = reached.insert(n);
                    assert(revealed_as(f0, self@, grown));
                    lemma_revealed_as(f0, self@, grown, i0);
                    lemma_counts_small(self@, n);
                    lemma_reached_small(f0, grown);
                    assert(grown.len() == reached.len() + 1);
                    vstd::set_lib::lemma_len_subset(reached0, reached);
                    assert forall|t: Set<int>| #[trigger] f0.closed_from(i0, t) implies t.contains(n) by {
                        assert(t.contains(j));
                        assert(0 <= j < f0.tiles.len() && t.contains(j) && f0.shown(j) == 0
                            && nbr_set(s, j).contains(n) && f0.eligible(n));
                    }
                    assert forall|a: int| #[trigger] grown.contains(a) && a != j && a != n && f0.shown(a) == 0 implies pending(
                        coord_indices(s, stack@),
                        a,
                    ) || covered(f0, a, grown) by {
                        assert(reached.contains(a));
                        if covered(f0, a, reached) {
                            assert forall|x: int| #[trigger] nbr_set(f0.size, a).contains(x) && f0.eligible(x) implies grown.contains(x) by {
                                assert(reached.contains(x));
                            }
                        }
                    }
                    reached = grown;
                }
                match self.query_tile(neighbour) {
                    QueryResult::Mine => {
                        proof {
                            assert(f0.tiles[n].has_mine);
                            if safe {
                                lemma_game_zero_safe(f0, j, n);
                            }
                        }
                        return Err("There was a mine there!".to_owned());
                    },
                    QueryResult::Revealed(0) => {
                        stack.push(neighbour);
                    },
                    QueryResult::Revealed(_) => {},
                    QueryResult::Blank | QueryResult::Flagged => {
                        proof {
                            assert(false);
                        }
                    },
                }
                proof {
                    let st = coord_indices(s, stack@);
                    let st_prev = coord_indices(s, prev_stack);
                    assert forall|m: int| 0 <= m < prev_stack.len() implies #[trigger] stack@[m] == prev_stack[m] by {}
                    assert forall|a: int| #[trigger] reached.contains(a) && a != j && f0.shown(a) == 0 implies pending(
                        st,
                        a,
                    ) || covered(f0, a, reached) by {
                        if a == n {
                            assert(st[prev_stack.len() as int] == n);
                        } else if pending(st_prev, a) {
                            let m = choose|m: int| 0 <= m < st_prev.len() && st_prev[m] == a;
                            assert(st[m] == a);
                        }
                    }
                    assert(zero_stack(f0, stack@, reached));
                    assert(within_closed(f0, i0, st, reached)) by {
                        assert forall|t: Set<int>| #[trigger] f0.closed_from(i0, t) implies reached.subset_of(t)
                            && forall|m: int| 0 <= m < st.len() ==> t.contains(#[trigger] st[m]) by {
                            assert forall|m: int| 0 <= m < st.len() implies t.contains(#[trigger] st[m]) by {
                                if m < st_prev.len() {
                                    assert(st[m] == st_prev[m]);
                                }
                            }
                        }
                    }
                }
                k += 1;
            }
            proof {
                assert(covered(f0, j, reached)) by {
                    assert forall|x: int| #[trigger] nbr_set(f0.size, j).contains(x) && f0.eligible(x) implies reached.contains(x) by {
                        let m = choose|m: int| 0 <= m < neighbours.len() && #[trigger] idxs[m] == x;
                    }
                }
                vstd::set_lib::lemma_len_subset(reached0, reached);
            }
        }
        proof {
            lemma_revealed_as(f0, self@, reached, i0);
            assert forall|a: int, x: int|
                0 <= a < f0.tiles.len() && reached.contains(a) && f0.shown(a) == 0
                    && nbr_set(s, a).contains(x) && f0.eligible(x) implies reached.contains(x) by {
                assert(covered(f0, a, reached));
            }
        }
        Ok(())
    }

    /// What a click on the tile at `coord` does in the first version's
    /// window: a primary click on a hidden tile reveals it, and the window
    /// then counts the game as lost when the reveal succeeds, not when a
    /// mine goes off; a secondary click without a primary one
    /// flags a hidden tile or takes a flag off. Returns whether the game
    /// counts as lost.
    pub fn tile_clicked(&mut self, coord: Coordinate, primary: bool, secondary: bool) -> (lost: bool)
        requires
            old(self)@.wf(),
            in_bounds(old(self)@.size, coord@),
            old(self)@.mines_remaining > i16::MIN,
        ensures
            final(self)@.wf(),
            old(self)@.query(coord@) == QueryResult::Blank && primary ==> old(self)@.revealed_from(
                coord@,
                final(self)@,
                lost,
            ),
            old(self)@.query(coord@) == QueryResult::Blank && !primary && secondary ==> !lost && old(
                self,
            )@.flag_toggled(coord@, final(self)@, true),
            old(self)@.query(coord@) == QueryResult::Flagged && secondary ==> !lost && old(
                self,
            )@.flag_toggled(coord@, final(self)@, false),
            !(old(self)@.query(coord@) == QueryResult::Blank && (primary || secondary))
                && !(old(self)@.query(coord@) == QueryResult::Flagged && secondary) ==> !lost
                && final(self)@ == old(self)@,
    {
        let ghost f0 = self@;
        proof {
            lemma_encode(f0.size, coord@);
            assert(f0.tile_ok(encode(f0.size, coord@)));
        }
        let query = self.query_tile(coord);
        match query {
            QueryResult::Blank => {
                if primary {
                    let r = self.reveal_tile(coord);
                    return r.is_ok();
                } else if secondary {
                    self.toggle_flagged(coord);
                }
                false
            },
            QueryResult::Flagged => {
                if secondary {
                    self.toggle_flagged(coord);
                }
                false
            },
            _ => false,
        }
    }

    pub fn delta(&self) -> (r: bool)
        ensures
            r == self@.delta,
    {
        self.delta
    }

    pub fn mines_remaining(&self) -> (r: i16)
        ensures
            r == self@.mines_remaining,
    {
        self.mines_remaining
    }

    /// The length of the field along one axis.
    pub fn length(&self, ordinate: Ordinate) -> (r: usize)
        ensures
            r == ordinate.of(self@.size),
    {
        self.size.get_ordinate(ordinate)
    }

    /// What the player sees at `coord`.
    pub fn query_tile(&self, coord: Coordinate) -> (r: QueryResult)
        requires
            self@.wf(),
            in_bounds(self@.size, coord@),
        ensures
            r == self@.query(coord@),
    {
        let tile = self.index(coord);
        proof {
            lemma_encode(self@.size, coord@);
            lemma_counts_small(self@, encode(self@.size, coord@));
        }
        if tile.is_flagged() {
            return QueryResult::Flagged;
        }
        if !tile.is_revealed() {
            return QueryResult::Blank;
        }
        if tile.has_mine() {
            return QueryResult::Mine;
        }
        let count = if self.delta {
            tile.delta_minecount()
        } else {
            tile.minecount() as i16
        };
        QueryResult::Revealed(count)
    }
}

/// `cur` is `f0` with the tiles at the positions in `reached` revealed,
/// none of which carries a flag.
spec fn revealed_as(f0: GameView, cur: GameView, reached: Set<int>) -> bool {
    &&& cur == (GameView { tiles: cur.tiles, ..f0 })
    &&& cur.tiles.len() == f0.tiles.len()
    &&& forall|x: int|
        0 <= x < f0.tiles.len() ==> #[trigger] cur.tiles[x] == (TileState {
            revealed: f0.tiles[x].revealed || reached.contains(x),
            ..f0.tiles[x]
        })
    &&& forall|x: int| #[trigger] reached.contains(x) ==> 0 <= x < f0.tiles.len() && !f0.tiles[x].flagged
}

/// Revealing unflagged tiles keeps the field well formed and changes no
/// counter; what was revealed since is `reached`, but for a start that was
/// revealed before.
proof fn lemma_revealed_as(f0: GameView, cur: GameView, reached: Set<int>, i0: int)
    requires
        f0.wf(),
        revealed_as(f0, cur, reached),
        reached.contains(i0),
        forall|x: int| #[trigger] reached.contains(x) && x != i0 ==> !f0.tiles[x].revealed,
    ensures
        cur.wf(),
        f0.only_reveals(cur),
        f0.reached(cur, i0) == reached,
        cur.mines() == f0.mines(),
        cur.flags() == f0.flags(),
        forall|x: int| 0 <= x < f0.tiles.len() ==> #[trigger] cur.shown(x) == f0.shown(x),
{
    assert(cur.mines() =~= f0.mines());
    assert(cur.flags() =~= f0.flags());
    assert forall|x: int| 0 <= x < cur.tiles.len() implies #[trigger] cur.tile_ok(x) by {
        assert(f0.tile_ok(x));
    }
    assert(f0.reached(cur, i0) =~= reached);
}

/// A set of positions on the field is finite and no larger than the field.
proof fn lemma_reached_small(f0: GameView, reached: Set<int>)
    requires
        forall|x: int| #[trigger] reached.contains(x) ==> 0 <= x < f0.tiles.len(),
    ensures
        reached.finite(),
        reached.len() <= f0.tiles.len(),
{
    let r = vstd::set_lib::set_int_range(0, f0.tiles.len() as int);
    vstd::set_lib::lemma_int_range(0, f0.tiles.len() as int);
    assert(reached.subset_of(r));
    vstd::set_lib::lemma_len_subset(reached, r);
}

/// Every coordinate of the stack is on the field, reached, free of mines,
/// and shows zero.
spec fn zero_stack(f0: GameView, stack: Seq<Coordinate>, reached: Set<int>) -> bool {
    forall|m: int|
        0 <= m < stack.len() ==> in_bounds(f0.size, #[trigger] stack[m]@) && reached.contains(
            encode(f0.size, stack[m]@),
        ) && f0.shown(encode(f0.size, stack[m]@)) == 0 && !f0.tiles[encode(f0.size, stack[m]@)].has_mine
}

/// Every revealable neighbour of the tile at position `a` is in `reached`.
spec fn covered(f0: GameView, a: int, reached: Set<int>) -> bool {
    forall|n: int| #[trigger] nbr_set(f0.size, a).contains(n) && f0.eligible(n) ==> reached.contains(n)
}

/// Every reached tile but `skip` that shows zero waits on the stack or has
/// all its revealable neighbours reached.
spec fn progress(f0: GameView, st: Seq<int>, reached: Set<int>, skip: int) -> bool {
    forall|a: int|
        #[trigger] reached.contains(a) && a != skip && f0.shown(a) == 0 ==> pending(st, a) || covered(
            f0,
            a,
            reached,
        )
}

/// Whatever the reveal has reached or stacked lies in every closed set
/// from the start.
spec fn within_closed(f0: GameView, i0: int, st: Seq<int>, reached: Set<int>) -> bool {
    forall|t: Set<int>|
        #[trigger] f0.closed_from(i0, t) ==> reached.subset_of(t) && forall|m: int|
            0 <= m < st.len() ==> t.contains(#[trigger] st[m])
}

/// The sets of mined and flagged positions are finite and within the field.
proof fn lemma_game_sets_finite(f: GameView)
    ensures
        f.mines().finite(),
        f.flags().finite(),
        f.mines().len() <= f.tiles.len(),
        f.flags().len() <= f.tiles.len(),
{
    let r = vstd::set_lib::set_int_range(0, f.tiles.len() as int);
    vstd::set_lib::lemma_int_range(0, f.tiles.len() as int);
    assert(f.mines().subset_of(r));
    assert(f.flags().subset_of(r));
    vstd::set_lib::lemma_len_subset(f.mines(), r);
    vstd::set_lib::lemma_len_subset(f.flags(), r);
}

/// Adding `q` to the counted mines adds one around `j` exactly when `q` is a
/// neighbour of `j`, and never more than the mines counted.
proof fn lemma_symmetric_count(s: Quad, q: int, j: int, counted: Set<int>)
    requires
        positive(s),
        0 <= q < volume(s),
        0 <= j < volume(s),
        counted.finite(),
        !counted.contains(q),
    ensures
        nbr_set(s, j).intersect(counted.insert(q)).len() == nbr_set(s, j).intersect(counted).len()
            + if nbr_set(s, q).contains(j) {
            1int
        } else {
            0int
        },
{
    lemma_nbr_set_size(s, j);
    lemma_nbr_symmetric(s, q, j);
    lemma_count_insert(nbr_set(s, j), counted, q);
}

} // verus!
