//! The minefield: its tiles, the counters that every move keeps up to date,
//! and the moves themselves.
pub mod coordinate;
pub mod tile;
pub mod neighbours;
pub mod placement;
pub mod laws;

use vstd::prelude::*;
use std::ops::Range;
use std::collections::VecDeque;
use crate::grid::{
    box_count, decode, encode, in_bounds, in_box, lemma_box_count_small, lemma_decode,
    lemma_decode_in_bounds, lemma_encode, lemma_nbr_set_size, lex_lt, nbr_set, positive, span,
    volume, Quad,
};
use coordinate::{coordinate, Coordinate, Ordinate, ORDINATES};
use tile::{lemma_tile_counts, Tile, TileView};
use crate::random::drawn;
use neighbours::{
    coord_indices, lemma_neighbour_indices, lists_box, neighbours_within, ordinate_range, ranges_fit,
};

verus! {

/// Everything a minefield holds, as mathematical values.
pub struct FieldView {
    pub size: Quad,
    pub tiles: Seq<TileView>,
    pub minecount: int,
    pub flagged_tiles: int,
    pub unrevealed_tiles: int,
    pub delta: bool,
    pub cheated: bool,
    pub started: bool,
}

/// The part of a tile that moves set directly: mine, flag, revealed, debug mark.
/// Its counters follow from the marks of its neighbours.
pub open spec fn marks(t: TileView) -> (bool, bool, bool, bool) {
    (t.has_mine, t.flagged, t.revealed, t.debug_marked)
}

impl FieldView {
    /// The size is positive and the tile vector has one tile per coordinate.
    pub open spec fn shape_ok(self) -> bool {
        &&& positive(self.size)
        &&& self.tiles.len() == volume(self.size)
        &&& volume(self.size) <= u32::MAX
        &&& volume(self.size) + 2 <= usize::MAX
        &&& 0 <= self.minecount <= u16::MAX
    }

    /// `c` has positive ordinates and its position falls inside the tile vector.
    pub open spec fn addressable(self, c: Quad) -> bool {
        positive(c) && 0 <= encode(self.size, c) < self.tiles.len()
    }

    /// The tile stored for coordinate `c`.
    pub open spec fn tile(self, c: Quad) -> TileView {
        self.tiles[encode(self.size, c)]
    }

    pub open spec fn mines(self) -> Set<int> {
        Set::new(|j: int| 0 <= j < self.tiles.len() && self.tiles[j].has_mine)
    }

    pub open spec fn flags(self) -> Set<int> {
        Set::new(|j: int| 0 <= j < self.tiles.len() && self.tiles[j].flagged)
    }

    pub open spec fn hidden(self) -> Set<int> {
        Set::new(|j: int| 0 <= j < self.tiles.len() && !self.tiles[j].revealed)
    }

    /// How many neighbours of the tile at position `i` belong to `set`.
    pub open spec fn around(self, i: int, set: Set<int>) -> int {
        nbr_set(self.size, i).intersect(set).len() as int
    }

    /// The counters of the tile at position `i` agree with its neighbours, and
    /// it is not both flagged and revealed.
    pub open spec fn tile_ok(self, i: int) -> bool {
        let t = self.tiles[i];
        &&& t.true_minecount == self.around(i, self.mines())
        &&& t.flagged_neighbours == self.around(i, self.flags())
        &&& t.hidden_neighbours == self.around(i, self.hidden())
        &&& !(t.flagged && t.revealed)
    }

    /// The invariant of a game in progress: every counter agrees with the board.
    pub open spec fn wf(self) -> bool {
        &&& self.shape_ok()
        &&& self.minecount == self.mines().len()
        &&& self.flagged_tiles == self.flags().len()
        &&& self.unrevealed_tiles == self.hidden().len()
        &&& forall|i: int| 0 <= i < self.tiles.len() ==> #[trigger] self.tile_ok(i)
    }

    /// What survives a lost game: the shape, and counters small enough to show.
    pub open spec fn sane(self) -> bool {
        &&& self.shape_ok()
        &&& forall|i: int|
            0 <= i < self.tiles.len() ==> 0 <= #[trigger] self.tiles[i].true_minecount <= 80 && 0
                <= self.tiles[i].flagged_neighbours <= 80 && 0 <= self.tiles[i].hidden_neighbours
                <= 80
    }

    /// The marks of every tile.
    pub open spec fn board(self) -> Seq<(bool, bool, bool, bool)> {
        self.tiles.map_values(|t: TileView| marks(t))
    }

    /// `after` is `self` with the flag on the tile at `c` put on (when
    /// `flagged`) or taken off, and every counter brought up to date.
    pub open spec fn flag_toggled(self, c: Quad, after: FieldView, flagged: bool) -> bool {
        let t = self.tile(c);
        &&& after.wf()
        &&& flagged == !t.flagged
        &&& after.board() == self.board().update(
            encode(self.size, c),
            (t.has_mine, flagged, false, t.debug_marked),
        )
        &&& after.size == self.size
        &&& after.delta == self.delta
        &&& after.cheated == self.cheated
        &&& after.started == self.started
    }

    /// No mine has gone off: every mine is still hidden.
    pub open spec fn mines_hidden(self) -> bool {
        forall|j: int| 0 <= j < self.tiles.len() && #[trigger] self.tiles[j].has_mine ==> !self.tiles[j].revealed
    }

    /// Every flag stands on a mine.
    pub open spec fn flags_correct(self) -> bool {
        self.flags().subset_of(self.mines())
    }

    /// Revealing the tile at `j` carries on to its neighbours: it shows a
    /// zero and carries no debug mark.
    pub open spec fn spreads(self, j: int) -> bool {
        !self.tiles[j].debug_marked && self.tiles[j].shown_count(self.delta) == 0
    }

    /// The tile at position `n` can be revealed: it is hidden and carries no flag.
    pub open spec fn eligible(self, n: int) -> bool {
        0 <= n < self.tiles.len() && !self.tiles[n].revealed && !self.tiles[n].flagged
    }

    /// With every tile of `t` that spreads, `t` holds every neighbour that
    /// can be revealed.
    pub open spec fn spread_closed(self, t: Set<int>) -> bool {
        forall|a: int, n: int|
            #![trigger t.contains(a), nbr_set(self.size, a).contains(n)]
            0 <= a < self.tiles.len() && t.contains(a) && self.spreads(a) && nbr_set(
                self.size,
                a,
            ).contains(n) && self.eligible(n) ==> t.contains(n)
    }

    /// `t` holds `start` and is closed under spreading.
    pub open spec fn closed_from(self, start: int, t: Set<int>) -> bool {
        t.contains(start) && self.spread_closed(t)
    }

    /// The tile at position `n` is revealed, free of mines, flags and debug
    /// marks, not blank, and shows zero: the player sees `Revealed(0)`.
    pub open spec fn shows_zero(self, n: int) -> bool {
        let t = self.tiles[n];
        &&& t.revealed
        &&& !t.has_mine
        &&& !t.flagged
        &&& !t.debug_marked
        &&& !t.blank(self.delta)
        &&& t.shown_count(self.delta) == 0
    }

    /// `z` holds every neighbour of `start` that shows zero, and every
    /// neighbour that shows zero of a tile in `z`.
    pub open spec fn zero_closed(self, start: int, z: Set<int>) -> bool {
        &&& forall|n: int|
            nbr_set(self.size, start).contains(n) && self.shows_zero(n) ==> #[trigger] z.contains(n)
        &&& forall|a: int, n: int|
            #![trigger z.contains(a), nbr_set(self.size, a).contains(n)]
            0 <= a < self.tiles.len() && z.contains(a) && nbr_set(self.size, a).contains(n)
                && self.shows_zero(n) ==> z.contains(n)
    }

    /// The tile at position `z` can be reached from `start` through
    /// neighbours that all show zero: it belongs to every zero-closed set.
    pub open spec fn zero_reach(self, start: int, z: int) -> bool {
        forall|zs: Set<int>| #[trigger] self.zero_closed(start, zs) ==> zs.contains(z)
    }

    /// The positions revealed in `after` that were hidden in `self`.
    pub open spec fn revealed_since(self, after: FieldView) -> Set<int> {
        Set::new(|j: int| 0 <= j < self.tiles.len() && after.tiles[j].revealed && !self.tiles[j].revealed)
    }

    /// `after` differs from `self` only in tiles that were revealed (and in
    /// the counters that follow), and in whether the game has started.
    pub open spec fn only_reveals(self, after: FieldView) -> bool {
        &&& after.size == self.size
        &&& after.tiles.len() == self.tiles.len()
        &&& after.minecount == self.minecount
        &&& after.delta == self.delta
        &&& after.cheated == self.cheated
        &&& forall|j: int|
            0 <= j < self.tiles.len() ==> (#[trigger] after.tiles[j]).has_mine
                == self.tiles[j].has_mine && after.tiles[j].flagged == self.tiles[j].flagged
                && after.tiles[j].debug_marked == self.tiles[j].debug_marked && (
                self.tiles[j].revealed ==> after.tiles[j].revealed)
    }

    /// What a player sees at `c` while the game runs.
    pub open spec fn query(self, c: Quad) -> QueryResult {
        let t = self.tile(c);
        if t.debug_marked {
            QueryResult::DebugMarked
        } else if t.flagged {
            QueryResult::Flagged
        } else if !t.revealed {
            QueryResult::Hidden
        } else if t.has_mine {
            QueryResult::Exploded
        } else if t.blank(self.delta) {
            QueryResult::Blank
        } else {
            QueryResult::Revealed(t.shown_count(self.delta) as i16)
        }
    }

    /// What a player sees at `c` once the game is lost.
    pub open spec fn query_gameover(self, c: Quad) -> QueryResult {
        let t = self.tile(c);
        if t.flagged {
            if t.has_mine {
                QueryResult::GoCorrect
            } else {
                QueryResult::GoIncorrect
            }
        } else if !t.revealed {
            if t.has_mine {
                QueryResult::GoMine
            } else {
                QueryResult::GoHidden(t.shown_count(self.delta) as i16)
            }
        } else if t.has_mine {
            QueryResult::Exploded
        } else if t.blank(self.delta) {
            QueryResult::Blank
        } else {
            QueryResult::Revealed(t.shown_count(self.delta) as i16)
        }
    }
}

/// A game of minesweeper on a four-dimensional field.
pub struct Minefield {
    size: Coordinate,
    tiles: Vec<Tile>,
    minecount: u32,
    flagged_tiles: u32,
    unrevealed_tiles: u32,
    delta: bool,
    cheated: bool,
    started: bool,
}

impl View for Minefield {
    type V = FieldView;

    closed spec fn view(&self) -> FieldView {
        FieldView {
            size: self.size@,
            tiles: self.tiles@.map_values(|t: Tile| t@),
            minecount: self.minecount as int,
            flagged_tiles: self.flagged_tiles as int,
            unrevealed_tiles: self.unrevealed_tiles as int,
            delta: self.delta,
            cheated: self.cheated,
            started: self.started,
        }
    }
}

/// What a random draw of a tile means when a game is started.
#[derive(Copy, Clone, Debug, PartialEq, Eq, Structural)]
pub enum StartDraw {
    /// The tile has mined neighbours: the draw counts as a miss.
    Miss,
    /// The tile holds a mine: drawn again, not counted.
    Mine,
    /// The tile can start the game.
    Start,
}

/// The meaning of draw `draw` on field `f`: the tile at position `draw`
/// modulo the number of tiles.
pub open spec fn start_draw(f: FieldView, draw: int) -> StartDraw {
    let t = f.tiles[draw % f.tiles.len() as int];
    if t.true_minecount > 0 {
        StartDraw::Miss
    } else if t.has_mine {
        StartDraw::Mine
    } else {
        StartDraw::Start
    }
}

/// A field a game can be started on: well formed, with every flag on a
/// mine or the full count shown (so that no reveal from a clear tile can
/// meet a mine), and with every tile free of mines around and on it still
/// hidden and unflagged.
pub open spec fn startable(f: FieldView) -> bool {
    &&& f.wf()
    &&& f.flags_correct() || !f.delta
    &&& forall|j: int|
        0 <= j < f.tiles.len() && #[trigger] f.tiles[j].true_minecount == 0 && !f.tiles[j].has_mine
            ==> f.eligible(j)
}

/// How many of the draws `d` land on tiles with mined neighbours.
pub open spec fn misses(f: FieldView, d: Seq<u32>) -> int
    decreases d.len(),
{
    if d.len() == 0 {
        0
    } else {
        misses(f, d.drop_last()) + if start_draw(f, d.last() as int) == StartDraw::Miss {
            1int
        } else {
            0int
        }
    }
}

/// Draw `k` of `d` starts the game: it lands on a tile free of mines with
/// no mined neighbour, no earlier draw did, and fewer than 10000 earlier
/// draws missed.
pub open spec fn starts_at(f: FieldView, d: Seq<u32>, k: int) -> bool {
    &&& 0 <= k < d.len()
    &&& start_draw(f, d[k] as int) == StartDraw::Start
    &&& forall|i: int| 0 <= i < k ==> start_draw(f, d[i] as int) != StartDraw::Start
    &&& misses(f, d.take(k)) < 10000
}

/// What a start that drew `d` from the source of chance leaves: when `ok`,
/// its last draw started the game and `after` is the field revealed from
/// that draw's tile; otherwise no draw started it, the draws stopped at
/// 10000 misses or after `u64::MAX` draws, and `after` is the field as it
/// was.
pub open spec fn start_run(f: FieldView, d: Seq<u32>, after: FieldView, ok: bool) -> bool {
    &&& forall|i: int| 0 <= i < d.len() ==> drawn(#[trigger] d[i])
    &&& if ok {
        &&& d.len() >= 1
        &&& starts_at(f, d, d.len() - 1)
        &&& reveal_done(f, d.last() as int % f.tiles.len() as int, after)
    } else {
        &&& after == f
        &&& forall|k: int| !starts_at(f, d, k)
        &&& misses(f, d) >= 10000 || d.len() >= u64::MAX
    }
}

/// Taking one more draw adds one miss exactly when that draw misses.
proof fn lemma_misses_step(f: FieldView, d: Seq<u32>, k: int)
    requires
        0 <= k < d.len(),
    ensures
        misses(f, d.take(k + 1)) == misses(f, d.take(k)) + if start_draw(f, d[k] as int)
            == StartDraw::Miss {
            1int
        } else {
            0int
        },
{
    assert(d.take(k + 1).drop_last() =~= d.take(k));
}

/// Misses only grow as draws are taken.
proof fn lemma_misses_monotone(f: FieldView, d: Seq<u32>, a: int, b: int)
    requires
        0 <= a <= b <= d.len(),
    ensures
        misses(f, d.take(a)) <= misses(f, d.take(b)),
    decreases b - a,
{
    if a < b {
        lemma_misses_step(f, d, b - 1);
        lemma_misses_monotone(f, d, a, b - 1);
    }
}

/// What a tile looks like to the player.
#[derive(PartialEq, Eq, Structural, Debug)]
pub enum QueryResult {
    Hidden,
    Flagged,
    Revealed(i16),
    Blank,
    Exploded,
    GoMine,
    GoCorrect,
    GoIncorrect,
    GoHidden(i16),
    DebugMarked,
}

/// A well-formed field keeps every counter of every tile below 81.
pub proof fn lemma_wf_sane(f: FieldView)
    requires
        f.wf(),
    ensures
        f.sane(),
{
    assert forall|i: int| 0 <= i < f.tiles.len() implies 0 <= #[trigger] f.tiles[i].true_minecount
        <= 80 && 0 <= f.tiles[i].flagged_neighbours <= 80 && 0 <= f.tiles[i].hidden_neighbours
        <= 80 by {
        assert(f.tile_ok(i));
        lemma_nbr_set_size(f.size, i);
        lemma_decode(f.size, i);
        lemma_box_count_small(f.size, decode(f.size, i));
        vstd::set_lib::lemma_len_intersect(nbr_set(f.size, i), f.mines());
        vstd::set_lib::lemma_len_intersect(nbr_set(f.size, i), f.flags());
        vstd::set_lib::lemma_len_intersect(nbr_set(f.size, i), f.hidden());
    }
}

impl Minefield {
    /// The number of neighbours of the tile at position `index`: the box of
    /// radius 1 around it, less the tile itself.
    fn neighbour_no(field_size: Coordinate, index: usize) -> (r: u16)
        requires
            positive(field_size@),
        ensures
            r == box_count(field_size@, decode(field_size@, index as int), 1) - 1,
    {
        let ghost s = field_size@;
        let mut tiles: u16 = 81;
        let coord = Self::convert_index(field_size, index);
        let ghost c = coord@;
        proof {
            lemma_decode_in_bounds(s, index as int);
        }
        let ords = ORDINATES;
        let mut k: usize = 0;
        proof {
            reveal_with_fuel(pow3, 5);
        }
        while k < 4
            invariant
                0 <= k <= 4,
                ords == ORDINATES,
                c == coord@,
                s == field_size@,
                positive(s),
                in_bounds(s, c),
                tiles as int == pow3(4 - k) * spans_prefix(s, c, k as int),
            decreases 4 - k,
        {
            let ord = ords[k];
            let size_ord = field_size.get(ord);
            let coord_ord = coord.get(ord);
            let ghost m = pow3(3 - k) * spans_prefix(s, c, k as int);
            proof {
                assert(ord == ordinate_at(k as int));
                lemma_pow3_step(3 - k, spans_prefix(s, c, k as int));
                lemma_spans_prefix_bounds(s, c, k as int);
            }
            assert(tiles == 3 * m);
            proof {
                lemma_pow3_mul(3 - k, k as int);
                assert(m <= pow3(3 - k) * pow3(k as int)) by (nonlinear_arith)
                    requires
                        m == pow3(3 - k) * spans_prefix(s, c, k as int),
                        spans_prefix(s, c, k as int) <= pow3(k as int),
                        pow3(3 - k) >= 0,
                ;
                assert(pow3(3) == 27) by {
                    reveal_with_fuel(pow3, 4);
                }
            }
            assert(1 <= coord_ord <= size_ord);
            let ghost t0 = tiles as int;
            if coord_ord == 1 || coord_ord == size_ord {
                tiles *= 2;
                tiles /= 3;
                assert(tiles == 2 * m);
            }
            if size_ord == 1 {
                tiles /= 2;
            }
            proof {
                let sp = span(coord_ord as int, 1, size_ord as int);
                if size_ord == 1 {
                    assert(sp == 1);
                    assert(tiles == m);
                } else if coord_ord == 1 || coord_ord == size_ord {
                    assert(sp == 2);
                } else {
                    assert(sp == 3);
                    assert(tiles == 3 * m);
                }
                assert(tiles == m * sp);
                assert(spans_prefix(s, c, k + 1) == spans_prefix(s, c, k as int) * sp);
                assert(pow3(3 - k) * spans_prefix(s, c, k as int) * sp == pow3(3 - k) * (
                spans_prefix(s, c, k as int) * sp)) by (nonlinear_arith);
            }
            k += 1;
        }
        proof {
            lemma_spans_prefix_full(s, c);
            lemma_box_count_small(s, c);
            assert(pow3(0) == 1);
        }
        tiles - 1
    }

    /// The coordinate of the tile at position `index` of the tile vector.
    fn convert_index(size: Coordinate, index: usize) -> (c: Coordinate)
        requires
            positive(size@),
        ensures
            c@ == decode(size@, index as int),
    {
        let mut index = index;
        let ghost i0 = index as int;
        let ghost s = size@;
        proof {
            vstd::arithmetic::div_mod::lemma_mod_bound(i0, s.0);
            vstd::arithmetic::div_mod::lemma_mod_bound(i0 / s.0, s.1);
            vstd::arithmetic::div_mod::lemma_mod_bound(i0 / s.0 / s.1, s.2);
            vstd::arithmetic::div_mod::lemma_mod_bound(i0 / s.0 / s.1 / s.2, s.3);
        }
        let x = 1 + index % size.x();
        index /= size.x();
        let y = 1 + index % size.y();
        index /= size.y();
        let z = 1 + index % size.z();
        index /= size.z();
        let w = 1 + index % size.w();
        coordinate(x, y, z, w)
    }

    /// The position in the tile vector of the tile at `coord`.
    fn convert_coord(&self, coord: Coordinate) -> (r: usize)
        requires
            self@.shape_ok(),
            self@.addressable(coord@),
        ensures
            r == encode(self@.size, coord@),
    {
        let ghost s = self@.size;
        let ghost c = coord@;
        let ghost total = encode(s, c);
        proof {
            assert(0 <= (c.1 - 1) * s.0) by (nonlinear_arith)
                requires
                    c.1 >= 1,
                    s.0 >= 1,
            ;
            assert(s.0 <= s.0 * s.1) by (nonlinear_arith)
                requires
                    s.0 >= 1,
                    s.1 >= 1,
            ;
            assert(0 <= (c.3 - 1) * s.2) by (nonlinear_arith)
                requires
                    c.3 >= 1,
                    s.2 >= 1,
            ;
            assert((c.3 - 1) * s.2 <= (c.2 - 1) + (c.3 - 1) * s.2);
            assert((c.2 - 1) + (c.3 - 1) * s.2 <= ((c.2 - 1) + (c.3 - 1) * s.2) * (s.0 * s.1))
                by (nonlinear_arith)
                requires
                    (c.2 - 1) + (c.3 - 1) * s.2 >= 0,
                    s.0 * s.1 >= 1,
            ;
            assert(s.0 * s.1 <= ((c.2 - 1) + (c.3 - 1) * s.2) * (s.0 * s.1) || (c.2 - 1) + (c.3
                - 1) * s.2 == 0) by (nonlinear_arith)
                requires
                    (c.2 - 1) + (c.3 - 1) * s.2 >= 0,
                    s.0 * s.1 >= 1,
            ;
            assert(s.0 * s.1 <= volume(s)) by (nonlinear_arith)
                requires
                    s.0 >= 1,
                    s.1 >= 1,
                    s.2 >= 1,
                    s.3 >= 1,
            ;
            assert(0 <= ((c.2 - 1) + (c.3 - 1) * s.2) * (s.0 * s.1)) by (nonlinear_arith)
                requires
                    (c.2 - 1) + (c.3 - 1) * s.2 >= 0,
                    s.0 * s.1 >= 1,
            ;
        }
        (coord.x() - 1) + (coord.y() - 1) * self.size.x() + ((coord.z() - 1) + (coord.w() - 1)
            * self.size.z()) * (self.size.x() * self.size.y())
    }
}

/// A fresh field: nothing flagged, revealed or marked, counting shown relative to flags.
pub open spec fn fresh(f: FieldView) -> bool {
    &&& forall|j: int|
        0 <= j < f.tiles.len() ==> !(#[trigger] f.tiles[j]).flagged && !f.tiles[j].revealed
            && !f.tiles[j].debug_marked
    &&& f.delta
    &&& !f.cheated
    &&& !f.started
}

impl Minefield {
    /// Lays `settings`' mines at random positions and sets every tile's
    /// counters: the mines around it, no flags, all neighbours hidden.
    pub fn new(settings: crate::FieldSettings) -> (field: Self)
        requires
            positive(settings@.0),
            crate::settings_ok(settings@),
            volume(settings@.0) <= u32::MAX,
            volume(settings@.0) + 2 <= usize::MAX,
        ensures
            field@.wf(),
            fresh(field@),
            field@.size == settings@.0,
            field@.minecount == settings@.1,
            exists|d: Seq<u32>, ps: Seq<usize>|
                #[trigger] placement::laid_by(d, volume(settings@.0), ps) && field@.mines()
                    == placement::position_set(ps),
    {
        let size = settings.size;
        let mine_count = settings.mine_count;
        let ghost s = size@;
        proof {
            crate::grid::lemma_volume_positive(s);
            assert(s.0 * s.1 <= volume(s) && s.0 * s.1 * s.3 <= volume(s) && s.0 * s.1 * s.3 * s.2
                == volume(s) && s.0 * s.1 * s.2 <= volume(s)) by (nonlinear_arith)
                requires
                    positive(s),
            ;
        }
        let n = size.x() * size.y() * size.z() * size.w();
        let (mined, mine_positions) = placement::place_mines(n, mine_count);

        let mut tiles: Vec<Tile> = Vec::new();
        let mut i: usize = 0;
        while i < n
            invariant
                n == volume(s),
                s == size@,
                positive(s),
                mined@.len() == n,
                i <= n,
                tiles.len() == i,
                forall|j: int|
                    0 <= j < i ==> (#[trigger] tiles@[j])@ == (TileView {
                        has_mine: mined@[j],
                        flagged: false,
                        revealed: false,
                        true_minecount: 0,
                        flagged_neighbours: 0,
                        hidden_neighbours: nbr_set(s, j).len() as int,
                        debug_marked: false,
                    }),
            decreases n - i,
        {
            proof {
                lemma_nbr_set_size(s, i as int);
            }
            tiles.push(Tile::new(mined[i], Self::neighbour_no(size, i)));
            i += 1;
        }

        let mut field = Self {
            cheated: false,
            started: false,
            size,
            tiles,
            minecount: mine_count as u32,
            flagged_tiles: 0,
            unrevealed_tiles: size.multiply_out() as u32,
            delta: true,
        };
        let ghost f0 = field@;
        let ghost mut counted: Set<int> = Set::empty();
        proof {
            assert forall|j: int| 0 <= j < f0.tiles.len() implies #[trigger] marks(field@.tiles[j])
                == marks(f0.tiles[j]) && field@.tiles[j].flagged_neighbours == 0
                && field@.tiles[j].hidden_neighbours == nbr_set(s, j).len()
                && field@.tiles[j].true_minecount == nbr_set(s, j).intersect(counted).len() by {
                assert(field@.tiles[j] == field.tiles@[j]@);
                assert(nbr_set(s, j).intersect(counted) =~= Set::empty());
            }
            assert forall|j: int| 0 <= j < f0.tiles.len() implies #[trigger] f0.tiles[j].has_mine
                == mined@[j] && !f0.tiles[j].flagged && !f0.tiles[j].revealed
                && !f0.tiles[j].debug_marked by {
                assert(f0.tiles[j] == field.tiles@[j]@);
            }
        }
        let mut p: usize = 0;
        while p < mine_positions.len()
            invariant
                f0.shape_ok(),
                f0.size == s,
                s == size@,
                positive(s),
                field@ == (FieldView { tiles: field@.tiles, ..f0 }),
                field@.tiles.len() == f0.tiles.len(),
                placement::placed(mined@, mine_positions@, n as int),
                n == volume(s),
                p <= mine_positions.len(),
                counted.finite(),
                forall|m: int| 0 <= m < p ==> counted.contains(#[trigger] mine_positions@[m] as int),
                forall|j: int|
                    counted.contains(j) ==> exists|m: int|
                        0 <= m < p && #[trigger] mine_positions@[m] as int == j,
                forall|j: int|
                    0 <= j < f0.tiles.len() ==> #[trigger] marks(field@.tiles[j]) == marks(f0.tiles[j])
                        && field@.tiles[j].flagged_neighbours == 0
                        && field@.tiles[j].hidden_neighbours == nbr_set(s, j).len()
                        && field@.tiles[j].true_minecount == nbr_set(s, j).intersect(counted).len(),
                forall|j: int|
                    0 <= j < f0.tiles.len() ==> #[trigger] f0.tiles[j].has_mine == mined@[j]
                        && !f0.tiles[j].flagged && !f0.tiles[j].revealed
                        && !f0.tiles[j].debug_marked,
            decreases mine_positions.len() - p,
        {
            let index = mine_positions[p];
            let coord = Self::convert_index(size, index);
            let ghost q = index as int;
            proof {
                lemma_decode(s, q);
                lemma_ranges_fit(field@, coord@);
                lemma_nbr_set_size(s, q);
                assert(!counted.contains(q)) by {
                    if counted.contains(q) {
                        let m = choose|m: int| 0 <= m < p && #[trigger] mine_positions@[m] as int == q;
                        assert(mine_positions@[m] != mine_positions@[p as int]);
                    }
                }
            }
            let neighbours = field.get_neighbours(coord, 1);
            let ghost idxs = coord_indices(s, neighbours@);
            let ghost next = counted.insert(q);
            let ghost f1 = field@;
            proof {
                lemma_neighbour_indices(s, coord@, neighbours@);
                assert forall|j: int| 0 <= j < f0.tiles.len() implies #[trigger] f1.tiles[j].true_minecount
                    == nbr_set(s, j).intersect(counted).len() by {
                    assert(marks(field@.tiles[j]) == marks(f0.tiles[j]));
                }
            }
            let mut k: usize = 0;
            while k < neighbours.len()
                invariant
                    f0.shape_ok(),
                    f0.size == s,
                    field@ == (FieldView { tiles: field@.tiles, ..f0 }),
                    field@.tiles.len() == f0.tiles.len(),
                    n == volume(s),
                    0 <= q < n,
                    encode(s, coord@) == q,
                    counted.finite(),
                    !counted.contains(q),
                    next == counted.insert(q),
                    idxs == coord_indices(s, neighbours@),
                    idxs.len() == neighbours.len(),
                    0 <= k <= neighbours.len(),
                    forall|m: int| 0 <= m < neighbours.len() ==> in_bounds(s, #[trigger] neighbours@[m]@),
                    forall|m1: int, m2: int|
                        0 <= m1 < neighbours.len() && 0 <= m2 < neighbours.len() && m1 != m2
                            ==> idxs[m1] != idxs[m2],
                    forall|m: int|
                        0 <= m < neighbours.len() ==> nbr_set(s, q).contains(#[trigger] idxs[m]),
                    forall|j: int|
                        0 <= j < f0.tiles.len() ==> #[trigger] marks(field@.tiles[j]) == marks(
                            f1.tiles[j],
                        ) && field@.tiles[j].flagged_neighbours == f1.tiles[j].flagged_neighbours
                            && field@.tiles[j].hidden_neighbours == f1.tiles[j].hidden_neighbours,
                    forall|j: int|
                        0 <= j < f0.tiles.len() && !nbr_set(s, q).contains(j)
                            ==> #[trigger] field@.tiles[j].true_minecount
                            == f1.tiles[j].true_minecount,
                    forall|m: int|
                        0 <= m < k ==> field@.tiles[#[trigger] idxs[m]].true_minecount == nbr_set(
                            s,
                            idxs[m],
                        ).intersect(next).len(),
                    forall|m: int|
                        k <= m < neighbours.len() ==> field@.tiles[#[trigger] idxs[m]].true_minecount
                            == f1.tiles[idxs[m]].true_minecount,
                    forall|j: int|
                        0 <= j < f0.tiles.len() ==> #[trigger] f1.tiles[j].true_minecount == nbr_set(
                            s,
                            j,
                        ).intersect(counted).len(),
                decreases neighbours.len() - k,
            {
                let neighbour = neighbours[k];
                let ghost j = idxs[k as int];
                let ghost before = field@;
                proof {
                    lemma_ranges_fit(field@, neighbour@);
                    lemma_nbr_set_size(s, j);
                    lemma_decode(s, j);
                    lemma_box_count_small(s, decode(s, j));
                    crate::grid::lemma_nbr_symmetric(s, q, j);
                    lemma_count_insert(nbr_set(s, j), counted, q);
                    vstd::set_lib::lemma_len_intersect(nbr_set(s, j), next);
                    assert(encode(s, neighbour@) == j);
                }
                field.index_mut(neighbour).count_mine();
                proof {
                    assert forall|jj: int| 0 <= jj < f0.tiles.len() implies #[trigger] marks(
                        field@.tiles[jj],
                    ) == marks(f1.tiles[jj]) && field@.tiles[jj].flagged_neighbours
                        == f1.tiles[jj].flagged_neighbours && field@.tiles[jj].hidden_neighbours
                        == f1.tiles[jj].hidden_neighbours by {
                        assert(marks(before.tiles[jj]) == marks(f1.tiles[jj]));
                    }
                    assert forall|m: int| 0 <= m < k implies field@.tiles[
                        #[trigger] idxs[m]].true_minecount == nbr_set(s, idxs[m]).intersect(
                        next,
                    ).len() by {
                        assert(idxs[m] != j);
                        assert(field@.tiles[idxs[m]] == before.tiles[idxs[m]]);
                    }
                    assert forall|m: int| k < m < neighbours.len() implies field@.tiles[
                        #[trigger] idxs[m]].true_minecount == f1.tiles[idxs[m]].true_minecount by {
                        assert(idxs[m] != j);
                        assert(field@.tiles[idxs[m]] == before.tiles[idxs[m]]);
                    }
                }
                k += 1;
            }
            proof {
                assert forall|j: int| 0 <= j < f0.tiles.len() implies #[trigger] marks(
                    field@.tiles[j],
                ) == marks(f0.tiles[j]) && field@.tiles[j].flagged_neighbours == 0
                    && field@.tiles[j].hidden_neighbours == nbr_set(s, j).len()
                    && field@.tiles[j].true_minecount == nbr_set(s, j).intersect(next).len() by {
                    assert(marks(field@.tiles[j]) == marks(f1.tiles[j]));
                    assert(marks(f1.tiles[j]) == marks(f0.tiles[j]));
                    lemma_nbr_set_size(s, j);
                    crate::grid::lemma_nbr_symmetric(s, q, j);
                    lemma_count_insert(nbr_set(s, j), counted, q);
                    if nbr_set(s, q).contains(j) {
                        let m = choose|m: int| 0 <= m < neighbours.len() && #[trigger] idxs[m] == j;
                    }
                }
                assert forall|j: int| next.contains(j) implies exists|m: int|
                    0 <= m < p + 1 && #[trigger] mine_positions@[m] as int == j by {
                    if j != q {
                        let m = choose|m: int| 0 <= m < p && #[trigger] mine_positions@[m] as int == j;
                    }
                }
                counted = next;
            }
            p += 1;
        }
        proof {
            let f = field@;
            lemma_sets_finite(f);
            assert forall|j: int| #![trigger f.tiles[j]] 0 <= j < f.tiles.len() implies f.tiles[j].has_mine
                == mined@[j] && !f.tiles[j].flagged && !f.tiles[j].revealed
                && !f.tiles[j].debug_marked by {
                assert(marks(field@.tiles[j]) == marks(f0.tiles[j]));
                assert(f0.tiles[j].has_mine == mined@[j]);
            }
            assert(counted =~= f.mines()) by {
                assert forall|j: int| f.mines().contains(j) implies counted.contains(j) by {
                    assert(f.tiles[j].has_mine == mined@[j]);
                    assert(mined@[j]);
                    let m = choose|m: int| 0 <= m < mine_positions.len() && mine_positions@[m] == j;
                    assert(counted.contains(mine_positions@[m] as int));
                }
                assert forall|j: int| counted.contains(j) implies f.mines().contains(j) by {
                    let m = choose|m: int|
                        0 <= m < mine_positions.len() && #[trigger] mine_positions@[m] as int == j;
                    assert(0 <= j < n);
                    assert(mined@[j]);
                    assert(f.tiles[j].has_mine == mined@[j]);
                }
            }
            assert forall|j: int| 0 <= j < f.tiles.len() implies !f.tiles[j].flagged by {
                assert(marks(field@.tiles[j]) == marks(f0.tiles[j]));
            }
            assert(f.flags() =~= Set::empty());
            assert(f.hidden() =~= vstd::set_lib::set_int_range(0, n as int));
            vstd::set_lib::lemma_int_range(0, n as int);
            mine_positions@.map_values(|m: usize| m as int).unique_seq_to_set();
            assert(mine_positions@.map_values(|m: usize| m as int).to_set() =~= counted) by {
                assert forall|j: int| counted.contains(j) implies mine_positions@.map_values(
                    |m: usize| m as int,
                ).to_set().contains(j) by {
                    let m = choose|m: int|
                        0 <= m < mine_positions.len() && #[trigger] mine_positions@[m] as int == j;
                    assert(mine_positions@.map_values(|m: usize| m as int)[m] == j);
                }
            }
            assert forall|j: int| 0 <= j < f.tiles.len() implies #[trigger] f.tile_ok(j) by {
                assert(marks(field@.tiles[j]) == marks(f0.tiles[j]));
                lemma_nbr_set_size(s, j);
                assert(nbr_set(s, j).intersect(f.flags()) =~= Set::empty());
                assert(nbr_set(s, j).intersect(f.hidden()) =~= nbr_set(s, j));
            }
        }
        proof {
            let ps = mine_positions@;
            let f = field@;
            assert(f.mines() =~= placement::position_set(ps)) by {
                assert forall|j: int| f.mines().contains(j) implies placement::position_set(ps).contains(j) by {
                    assert(counted.contains(j));
                    let m = choose|m: int| 0 <= m < mine_positions.len() && #[trigger] mine_positions@[m] as int == j;
                }
                assert forall|j: int| placement::position_set(ps).contains(j) implies f.mines().contains(j) by {
                    let m = choose|m: int| 0 <= m < ps.len() && ps[m] as int == j;
                    assert(counted.contains(mine_positions@[m] as int));
                }
            }
            let d = choose|d: Seq<u32>| #[trigger] placement::laid_by(d, n as int, ps);
            assert(placement::laid_by(d, n as int, ps) && f.mines() == placement::position_set(ps));
        }
        field
    }
}

impl Minefield {
    /// The values along `ordinate` that lie within `radius` of `coord` and on
    /// the field.
    pub fn iter_ordinate(&self, coord: Coordinate, radius: usize, ordinate: Ordinate) -> (r: Range<
        usize,
    >)
        requires
            ordinate.of(coord@) + radius + 1 <= usize::MAX,
            ordinate.of(self@.size) + 1 <= usize::MAX,
        ensures
            r.start == crate::grid::span_lo(ordinate.of(coord@), radius as int),
            r.end == crate::grid::span_hi(ordinate.of(coord@), radius as int, ordinate.of(self@.size))
                + 1,
    {
        let val = coord.get(ordinate);
        let len = self.length(ordinate);
        ordinate_range(val, len, radius)
    }

    /// Every tile within `radius` of `coord`, `coord` itself left out, in
    /// lexicographic order of (x, y, z, w).
    pub fn get_neighbours(&self, coord: Coordinate, radius: usize) -> (res: Vec<Coordinate>)
        requires
            ranges_fit(self@.size, coord@, radius as int),
        ensures
            lists_box(res@, self@.size, coord@, radius as int),
            in_bounds(self@.size, coord@) ==> res.len() == box_count(self@.size, coord@, radius as int)
                - 1,
    {
        neighbours_within(self.size, coord, radius)
    }

    /// The tile at `coord`.
    pub fn index(&self, coord: Coordinate) -> (t: &Tile)
        requires
            self@.shape_ok(),
            self@.addressable(coord@),
        ensures
            t@ == self@.tile(coord@),
    {
        let index = self.convert_coord(coord);
        &self.tiles[index]
    }

    /// The tile at `coord`, for changing it in place.
    pub fn index_mut(&mut self, coord: Coordinate) -> (t: &mut Tile)
        requires
            old(self)@.shape_ok(),
            old(self)@.addressable(coord@),
        ensures
            t@ == old(self)@.tile(coord@),
            final(self)@.tiles =~= old(self)@.tiles.update(encode(old(self)@.size, coord@), final(t)@),
            final(self)@ == (FieldView { tiles: final(self)@.tiles, ..old(self)@ }),
    {
        let index = self.convert_coord(coord);
        &mut self.tiles[index]
    }

    pub fn cheat(&mut self)
        ensures
            final(self)@ == (FieldView { cheated: true, ..old(self)@ }),
    {
        self.cheated = true;
    }

    pub fn has_cheated(&self) -> (r: bool)
        ensures
            r == self@.cheated,
    {
        self.cheated
    }

    pub fn has_started(&self) -> (r: bool)
        ensures
            r == self@.started,
    {
        self.started
    }

    /// Switches between showing the full mine count of a tile and the count
    /// less the flags around it.
    pub fn toggle_delta(&mut self)
        ensures
            final(self)@ == (FieldView { delta: !old(self)@.delta, ..old(self)@ }),
    {
        self.delta = !self.delta;
    }

    pub fn delta(&self) -> (r: bool)
        ensures
            r == self@.delta,
    {
        self.delta
    }

    /// Mines on the field less flags placed.
    pub fn mines_remaining(&self) -> (r: i32)
        requires
            0 <= self@.minecount <= i32::MAX,
            0 <= self@.flagged_tiles <= i32::MAX,
        ensures
            r == self@.minecount - self@.flagged_tiles,
    {
        self.minecount as i32 - self.flagged_tiles as i32
    }

    /// The settings the field was made with.
    pub fn settings(&self) -> (r: crate::FieldSettings)
        requires
            self@.shape_ok(),
        ensures
            r@ == (self@.size, self@.minecount),
    {
        crate::FieldSettings { size: self.size, mine_count: self.minecount as u16 }
    }

    /// The length of the field along one axis.
    pub fn length(&self, ordinate: Ordinate) -> (r: usize)
        ensures
            r == ordinate.of(self@.size),
    {
        self.size.get(ordinate)
    }

    /// The game is won when the only hidden tiles left are the mines.
    pub fn game_won(&self) -> (r: bool)
        ensures
            r == (self@.minecount == self@.unrevealed_tiles),
    {
        self.minecount as u32 == self.unrevealed_tiles
    }

    /// Puts a flag on the hidden tile at `coord`, or takes its flag off, and
    /// updates the flag counts of its neighbours and of the field. Returns
    /// whether the tile is flagged now.
    pub fn toggle_flagged(&mut self, coord: Coordinate) -> (flagged: bool)
        requires
            old(self)@.wf(),
            in_bounds(old(self)@.size, coord@),
            !old(self)@.tile(coord@).revealed,
        ensures
            old(self)@.flag_toggled(coord@, final(self)@, flagged),
    {
        let ghost f0 = self@;
        let ghost s = f0.size;
        let ghost i = encode(s, coord@);
        proof {
            lemma_ranges_fit(f0, coord@);
            lemma_sets_finite(f0);
            lemma_wf_sane(f0);
        }
        let tile = self.index_mut(coord);
        tile.toggle_flagged();
        let flagged = tile.is_flagged();
        let ghost f1 = self@;
        let ghost flags1 = f1.flags();
        proof {
            if flagged {
                assert(flags1 =~= f0.flags().insert(i));
            } else {
                assert(flags1 =~= f0.flags().remove(i));
            }
            assert(f1.mines() =~= f0.mines());
            assert(f1.hidden() =~= f0.hidden());
            lemma_nbr_set_size(s, i);
        }
        let neighbours = self.get_neighbours(coord, 1);
        let ghost idxs = coord_indices(s, neighbours@);
        proof {
            lemma_neighbour_indices(s, coord@, neighbours@);
            assert(!nbr_set(s, i).contains(i));
        }
        let mut k: usize = 0;
        while k < neighbours.len()
            invariant
                f0.wf(),
                s == f0.size,
                i == encode(s, coord@),
                0 <= i < f0.tiles.len(),
                f1.size == s,
                f1.tiles.len() == f0.tiles.len(),
                flagged ==> flags1 == f0.flags().insert(i) && !f0.flags().contains(i),
                !flagged ==> flags1 == f0.flags().remove(i) && f0.flags().contains(i),
                flags1 == f1.flags(),
                forall|j: int|
                    0 <= j < f0.tiles.len() && j != i ==> #[trigger] f1.tiles[j] == f0.tiles[j],
                f1.tiles[i].flagged_neighbours == f0.tiles[i].flagged_neighbours,
                self@ == (FieldView { tiles: self@.tiles, ..f1 }),
                self@.tiles.len() == f1.tiles.len(),
                self@.shape_ok(),
                idxs == coord_indices(s, neighbours@),
                idxs.len() == neighbours.len(),
                0 <= k <= neighbours.len(),
                forall|m: int| 0 <= m < neighbours.len() ==> in_bounds(s, #[trigger] neighbours@[m]@),
                forall|m1: int, m2: int|
                    0 <= m1 < neighbours.len() && 0 <= m2 < neighbours.len() && m1 != m2
                        ==> idxs[m1] != idxs[m2],
                forall|m: int|
                    0 <= m < neighbours.len() ==> nbr_set(s, i).contains(#[trigger] idxs[m]),
                forall|j: int|
                    0 <= j < f1.tiles.len() ==> #[trigger] marks(self@.tiles[j]) == marks(f1.tiles[j])
                        && self@.tiles[j].true_minecount == f1.tiles[j].true_minecount
                        && self@.tiles[j].hidden_neighbours == f1.tiles[j].hidden_neighbours,
                forall|j: int|
                    0 <= j < f1.tiles.len() && !nbr_set(s, i).contains(j)
                        ==> #[trigger] self@.tiles[j].flagged_neighbours
                        == f1.tiles[j].flagged_neighbours,
                forall|m: int|
                    0 <= m < k ==> self@.tiles[#[trigger] idxs[m]].flagged_neighbours == f1.around(
                        idxs[m],
                        flags1,
                    ),
                forall|m: int|
                    k <= m < neighbours.len() ==> self@.tiles[#[trigger] idxs[m]].flagged_neighbours
                        == f1.tiles[idxs[m]].flagged_neighbours,
            decreases neighbours.len() - k,
        {
            let neighbour = neighbours[k];
            let ghost j = idxs[k as int];
            let ghost before = self@;
            proof {
                lemma_ranges_fit(self@, neighbour@);
                assert(f0.tile_ok(j));
                assert(j != i);
                lemma_nbr_set_size(s, j);
                lemma_decode(s, j);
                lemma_box_count_small(s, decode(s, j));
                crate::grid::lemma_nbr_symmetric(s, i, j);
                vstd::set_lib::lemma_len_intersect(nbr_set(s, j), flags1);
                if flagged {
                    lemma_count_insert(nbr_set(s, j), f0.flags(), i);
                } else {
                    lemma_count_remove(nbr_set(s, j), f0.flags(), i);
                }
                assert(encode(s, neighbour@) == j);
            }
            let res = if flagged {
                self.index_mut(neighbour).increase_flagged_minecount()
            } else {
                self.index_mut(neighbour).decrease_flagged_minecount()
            };
            res.unwrap();
            proof {
                assert forall|jj: int| 0 <= jj < f1.tiles.len() implies #[trigger] marks(
                    self@.tiles[jj],
                ) == marks(f1.tiles[jj]) && self@.tiles[jj].true_minecount
                    == f1.tiles[jj].true_minecount && self@.tiles[jj].hidden_neighbours
                    == f1.tiles[jj].hidden_neighbours by {
                    assert(marks(before.tiles[jj]) == marks(f1.tiles[jj]));
                }
                assert forall|m: int| 0 <= m < k implies self@.tiles[#[trigger] idxs[m]].flagged_neighbours
                    == f1.around(idxs[m], flags1) by {
                    assert(idxs[m] != j);
                    assert(self@.tiles[idxs[m]] == before.tiles[idxs[m]]);
                }
                assert forall|m: int| k < m < neighbours.len() implies self@.tiles[
                    #[trigger] idxs[m]].flagged_neighbours == f1.tiles[idxs[m]].flagged_neighbours by {
                    assert(idxs[m] != j);
                    assert(self@.tiles[idxs[m]] == before.tiles[idxs[m]]);
                }
            }
            k += 1;
        }
        proof {
            lemma_sets_finite(f0);
            if flagged {
                assert(flags1.len() == f0.flags().len() + 1);
            } else {
                assert(flags1.len() == f0.flags().len() - 1);
            }
            assert(f0.flags().len() <= f0.tiles.len());
            lemma_sets_finite(f1);
        }
        if flagged {
            self.flagged_tiles += 1
        } else {
            self.flagged_tiles -= 1
        }
        proof {
            let f2 = self@;
            assert forall|j: int| 0 <= j < f2.tiles.len() implies f2.tiles[j].has_mine
                == f0.tiles[j].has_mine && f2.tiles[j].revealed == f0.tiles[j].revealed
                && f2.tiles[j].flagged == f1.tiles[j].flagged by {
                assert(marks(f2.tiles[j]) == marks(f1.tiles[j]));
            }
            assert(f2.mines() =~= f0.mines());
            assert(f2.hidden() =~= f0.hidden());
            assert(f2.flags() =~= flags1);
            assert forall|j: int| 0 <= j < f2.tiles.len() implies #[trigger] f2.tile_ok(j) by {
                assert(f0.tile_ok(j));
                lemma_nbr_set_size(s, j);
                crate::grid::lemma_nbr_symmetric(s, i, j);
                if flagged {
                    lemma_count_insert(nbr_set(s, j), f0.flags(), i);
                } else {
                    lemma_count_remove(nbr_set(s, j), f0.flags(), i);
                }
                assert(marks(f2.tiles[j]) == marks(f1.tiles[j]));
                if nbr_set(s, i).contains(j) {
                    let m = choose|m: int| 0 <= m < neighbours.len() && #[trigger] idxs[m] == j;
                    assert(self@.tiles[idxs[m]].flagged_neighbours == f1.around(idxs[m], flags1));
                    assert(j != i);
                } else {
                    assert(f2.tiles[j].flagged_neighbours == f1.tiles[j].flagged_neighbours);
                    if j != i {
                        assert(f1.tiles[j] == f0.tiles[j]);
                    }
                }
                assert(f2.around(j, f2.flags()) == f1.around(j, flags1));
                assert(f2.around(j, f2.mines()) == f0.around(j, f0.mines()));
                assert(f2.around(j, f2.hidden()) == f0.around(j, f0.hidden()));
            }
            assert(f2.board() =~= f0.board().update(
                i,
                (f0.tile(coord@).has_mine, flagged, false, f0.tile(coord@).debug_marked),
            )) by {
                assert forall|j: int| 0 <= j < f2.tiles.len() implies f2.board()[j] == f0.board().update(
                    i,
                    (f0.tile(coord@).has_mine, flagged, false, f0.tile(coord@).debug_marked),
                )[j] by {
                    assert(marks(f2.tiles[j]) == marks(f1.tiles[j]));
                }
            }
        }
        flagged
    }

    /// After the hidden tile at `c` was revealed: lowers the hidden-neighbour
    /// count of each of its neighbours and, when `is_zero`, stacks those that
    /// are hidden, unflagged and not stacked yet.
    fn settle_neighbours(
        &mut self,
        c: Coordinate,
        is_zero: bool,
        stack: &mut Vec<Coordinate>,
        Ghost(before): Ghost<FieldView>,
    ) -> (r: tile::TileResult)
        requires
            before.wf(),
            in_bounds(before.size, c@),
            before.eligible(encode(before.size, c@)),
            old(self)@ == with_revealed(before, encode(before.size, c@)),
            forall|m: int| 0 <= m < old(stack)@.len() ==> in_bounds(before.size, #[trigger] old(stack)@[m]@),
        ensures
            r is Ok,
            final(self)@.wf(),
            final(self)@ == (FieldView { tiles: final(self)@.tiles, ..old(self)@ }),
            same_marks_counts(final(self)@, old(self)@),
            final(stack)@.len() >= old(stack)@.len(),
            forall|m: int| 0 <= m < old(stack)@.len() ==> final(stack)@[m] == old(stack)@[m],
            forall|m: int|
                old(stack)@.len() <= m < final(stack)@.len() ==> in_bounds(
                    before.size,
                    #[trigger] final(stack)@[m]@,
                ) && nbr_set(before.size, encode(before.size, c@)).contains(
                    encode(before.size, final(stack)@[m]@),
                ) && old(self)@.eligible(encode(before.size, final(stack)@[m]@)) && is_zero && !pending(
                    coord_indices(before.size, old(stack)@),
                    encode(before.size, final(stack)@[m]@),
                ),
            forall|m1: int, m2: int|
                old(stack)@.len() <= m1 < final(stack)@.len() && old(stack)@.len() <= m2
                    < final(stack)@.len() && m1 != m2 ==> encode(before.size, final(stack)@[m1]@) != encode(
                    before.size,
                    final(stack)@[m2]@,
                ),
            is_zero ==> forall|n: int|
                nbr_set(before.size, encode(before.size, c@)).contains(n) && old(self)@.eligible(n)
                    ==> pending(coord_indices(before.size, final(stack)@), n),
    {
        let ghost s = before.size;
        let ghost j = encode(s, c@);
        let ghost fa = self@;
        let ghost stack0 = stack@;
        proof {
            lemma_ranges_fit(before, c@);
            lemma_sets_finite(before);
            lemma_nbr_set_size(s, j);
            assert(fa.hidden() =~= before.hidden().remove(j));
            assert(fa.flags() =~= before.flags());
            assert(fa.mines() =~= before.mines());
        }
        let neighbours = self.get_neighbours(c, 1);
        let ghost idxs = coord_indices(s, neighbours@);
        proof {
            lemma_neighbour_indices(s, c@, neighbours@);
            assert(!nbr_set(s, j).contains(j));
        }
        let mut k: usize = 0;
        while k < neighbours.len()
            invariant
                before.wf(),
                s == before.size,
                0 <= j < before.tiles.len(),
                j == encode(s, c@),
                in_bounds(s, c@),
                before.eligible(j),
                fa == with_revealed(before, j),
                fa.hidden() == before.hidden().remove(j),
                fa.flags() == before.flags(),
                fa.mines() == before.mines(),
                self@ == (FieldView { tiles: self@.tiles, ..fa }),
                self@.tiles.len() == before.tiles.len(),
                self@.shape_ok(),
                same_marks_counts(self@, fa),
                forall|x: int|
                    0 <= x < before.tiles.len() && !nbr_set(s, j).contains(x)
                        ==> #[trigger] self@.tiles[x].hidden_neighbours == fa.tiles[x].hidden_neighbours,
                idxs == coord_indices(s, neighbours@),
                idxs.len() == neighbours.len(),
                0 <= k <= neighbours.len(),
                forall|m: int| 0 <= m < neighbours.len() ==> in_bounds(s, #[trigger] neighbours@[m]@),
                forall|m1: int, m2: int|
                    0 <= m1 < neighbours.len() && 0 <= m2 < neighbours.len() && m1 != m2
                        ==> idxs[m1] != idxs[m2],
                forall|m: int| 0 <= m < neighbours.len() ==> nbr_set(s, j).contains(#[trigger] idxs[m]),
                forall|n: int|
                    nbr_set(s, j).contains(n) ==> exists|m: int|
                        0 <= m < neighbours.len() && #[trigger] idxs[m] == n,
                forall|m: int|
                    0 <= m < k ==> self@.tiles[#[trigger] idxs[m]].hidden_neighbours == fa.around(
                        idxs[m],
                        fa.hidden(),
                    ),
                forall|m: int|
                    k <= m < neighbours.len() ==> self@.tiles[#[trigger] idxs[m]].hidden_neighbours
                        == fa.tiles[idxs[m]].hidden_neighbours,
                stack@.len() >= stack0.len(),
                forall|m: int| 0 <= m < stack0.len() ==> stack@[m] == stack0[m],
                forall|m: int| 0 <= m < stack0.len() ==> in_bounds(s, #[trigger] stack0[m]@),
                forall|m: int|
                    stack0.len() <= m < stack@.len() ==> in_bounds(s, #[trigger] stack@[m]@)
                        && nbr_set(s, j).contains(encode(s, stack@[m]@)) && fa.eligible(
                        encode(s, stack@[m]@),
                    ) && is_zero && !pending(coord_indices(s, stack0), encode(s, stack@[m]@)),
                forall|m1: int, m2: int|
                    stack0.len() <= m1 < stack@.len() && stack0.len() <= m2 < stack@.len() && m1
                        != m2 ==> encode(s, stack@[m1]@) != encode(s, stack@[m2]@),
                forall|m: int|
                    0 <= m < k && is_zero && fa.eligible(#[trigger] idxs[m]) ==> pending(
                        coord_indices(s, stack@),
                        idxs[m],
                    ),
            decreases neighbours.len() - k,
        {
            let next = neighbours[k];
            let ghost nx = idxs[k as int];
            let ghost mid = self@;
            proof {
                lemma_ranges_fit(self@, next@);
                assert(encode(s, next@) == nx);
                assert(before.tile_ok(nx));
                crate::grid::lemma_nbr_symmetric(s, j, nx);
                lemma_nbr_set_size(s, nx);
                vstd::set_lib::lemma_len_intersect(nbr_set(s, nx), before.hidden());
                lemma_count_remove(nbr_set(s, nx), before.hidden(), j);
                assert(nbr_set(s, nx).intersect(before.hidden()).contains(j));
                assert(marks(mid.tiles[nx]) == marks(fa.tiles[nx]));
                assert(nx != j);
            }
            let (decreased, tile_revealed, tile_flagged) = {
                let tile = self.index_mut(next);
                let decreased = tile.decrease_hidden_neighbours();
                (decreased, tile.is_revealed(), tile.is_flagged())
            };
            match decreased {
                Ok(()) => {},
                Err(e) => {
                    return Err(e);
                },
            }
            proof {
                assert forall|xx: int| 0 <= xx < fa.tiles.len() implies #[trigger] marks(
                    self@.tiles[xx],
                ) == marks(fa.tiles[xx]) && self@.tiles[xx].true_minecount
                    == fa.tiles[xx].true_minecount && self@.tiles[xx].flagged_neighbours
                    == fa.tiles[xx].flagged_neighbours by {
                    assert(marks(mid.tiles[xx]) == marks(fa.tiles[xx]));
                }
                assert(same_marks_counts(self@, fa));
                assert forall|m: int| 0 <= m < k implies self@.tiles[#[trigger] idxs[m]].hidden_neighbours
                    == fa.around(idxs[m], fa.hidden()) by {
                    assert(idxs[m] != nx);
                    assert(self@.tiles[idxs[m]] == mid.tiles[idxs[m]]);
                }
                assert forall|m: int| k < m < neighbours.len() implies self@.tiles[
                    #[trigger] idxs[m]].hidden_neighbours == fa.tiles[idxs[m]].hidden_neighbours by {
                    assert(idxs[m] != nx);
                    assert(self@.tiles[idxs[m]] == mid.tiles[idxs[m]]);
                }
                assert(fa.eligible(nx) == (!tile_revealed && !tile_flagged));
            }
            let ghost cur_stack = stack@;
            if tile_revealed {
                k += 1;
                continue;
            }
            let contained = stack_contains(stack, next);
            if tile_flagged || !is_zero || contained {
                proof {
                    if contained {
                        let m = choose|m: int| 0 <= m < stack@.len() && #[trigger] stack@[m]@ == next@;
                        assert(coord_indices(s, stack@)[m] == nx);
                    }
                }
                k += 1;
                continue;
            }
            stack.push(next);
            proof {
                let new_st = coord_indices(s, stack@);
                assert(new_st[cur_stack.len() as int] == nx);
                assert forall|m: int| 0 <= m < cur_stack.len() implies encode(s, cur_stack[m]@) != nx by {
                    if m < stack0.len() {
                        assert(in_bounds(s, stack0[m]@));
                    }
                    lemma_encode_injective_coords(s, cur_stack[m]@, next@);
                }
                assert(!pending(coord_indices(s, stack0), nx)) by {
                    if pending(coord_indices(s, stack0), nx) {
                        let m = choose|m: int| 0 <= m < stack0.len() && coord_indices(s, stack0)[m] == nx;
                        assert(cur_stack[m] == stack0[m]);
                    }
                }
                assert forall|m: int| 0 <= m < k + 1 && is_zero && fa.eligible(#[trigger] idxs[m]) implies pending(
                    new_st,
                    idxs[m],
                ) by {
                    if m < k {
                        let m2 = choose|m2: int| 0 <= m2 < cur_stack.len() && coord_indices(s, cur_stack)[m2] == idxs[m];
                        assert(new_st[m2] == idxs[m]);
                    }
                }
            }
            k += 1;
        }
        proof {
            let f2 = self@;
            assert forall|x: int| 0 <= x < before.tiles.len() implies f2.tiles[x].has_mine
                == fa.tiles[x].has_mine && f2.tiles[x].flagged == fa.tiles[x].flagged
                && f2.tiles[x].revealed == fa.tiles[x].revealed by {
                assert(marks(f2.tiles[x]) == marks(fa.tiles[x]));
            }
            assert(f2.mines() =~= fa.mines());
            assert(f2.flags() =~= fa.flags());
            assert(f2.hidden() =~= fa.hidden());
            assert(before.hidden().contains(j));
            assert(f2.unrevealed_tiles == f2.hidden().len());
            assert forall|x: int| 0 <= x < f2.tiles.len() implies #[trigger] f2.tile_ok(x) by {
                assert(before.tile_ok(x));
                assert(marks(f2.tiles[x]) == marks(fa.tiles[x]));
                lemma_nbr_set_size(s, x);
                crate::grid::lemma_nbr_symmetric(s, j, x);
                lemma_count_remove(nbr_set(s, x), before.hidden(), j);
                if nbr_set(s, j).contains(x) {
                    let m = choose|m: int| 0 <= m < neighbours.len() && #[trigger] idxs[m] == x;
                }
            }
            assert forall|n: int| is_zero && nbr_set(s, j).contains(n) && fa.eligible(n) implies pending(
                coord_indices(s, stack@),
                n,
            ) by {
                let m = choose|m: int| 0 <= m < neighbours.len() && #[trigger] idxs[m] == n;
            }
        }
        Ok(())
    }

    /// Reveals the tile at `coord` and then, from every revealed tile that
    /// shows a zero, its hidden unflagged neighbours in turn. Returns how many
    /// tiles were revealed (counted modulo 2^16), or `Exploded` when a mine
    /// was hit.
    fn reveal_inner(&mut self, coord: Coordinate) -> (r: Result<u16, tile::TileError>)
        requires
            old(self)@.wf(),
            in_bounds(old(self)@.size, coord@),
            old(self)@.eligible(encode(old(self)@.size, coord@)),
        ensures
            old(self)@.only_reveals(final(self)@),
            r is Ok || r matches Err(tile::TileError::Exploded),
            (old(self)@.flags_correct() || !old(self)@.delta) && !old(self)@.tile(coord@).has_mine
                ==> r is Ok,
            old(self)@.tile(coord@).has_mine ==> (r matches Err(tile::TileError::Exploded))
                && final(self)@ == with_revealed(old(self)@, encode(old(self)@.size, coord@)),
            forall|t: Set<int>|
                old(self)@.closed_from(encode(old(self)@.size, coord@), t) ==> old(
                    self,
                )@.revealed_since(final(self)@).subset_of(t),
            r is Ok ==> final(self)@.wf() && final(self)@.started && old(self)@.closed_from(
                encode(old(self)@.size, coord@),
                old(self)@.revealed_since(final(self)@),
            ) && forall|j: int| #[trigger] old(self)@.revealed_since(final(self)@).contains(j)
                ==> !final(self)@.tiles[j].has_mine,
            match r {
                Ok(n) => n == old(self)@.revealed_since(final(self)@).len() % 65536,
                Err(_) => final(self)@.sane() && final(self)@.started == old(self)@.started
                    && exists|j: int|
                    0 <= j < final(self)@.tiles.len() && final(self)@.tiles[j].has_mine
                        && final(self)@.tiles[j].revealed,
            },
    {
        let ghost f0 = self@;
        let ghost s = f0.size;
        let ghost i0 = encode(s, coord@);
        let ghost safe = (f0.flags_correct() || !f0.delta) && !f0.tiles[i0].has_mine;
        proof {
            lemma_ranges_fit(f0, coord@);
            lemma_sets_finite(f0);
        }
        let mut revealed: u16 = 0;
        let mut stack: Vec<Coordinate> = Vec::new();
        stack.push(coord);
        let ghost mut done: Set<int> = Set::empty();
        proof {
            assert(coord_indices(s, stack@)[0] == i0);
            assert forall|x: int| 0 <= x < f0.tiles.len() implies (#[trigger] self@.tiles[x]).revealed
                == (f0.tiles[x].revealed || done.contains(x)) && self@.tiles[x].true_minecount
                == f0.tiles[x].true_minecount && self@.tiles[x].flagged_neighbours
                == f0.tiles[x].flagged_neighbours by {}
            assert(minimal_ok(f0, i0, coord_indices(s, stack@), done)) by {
                assert forall|t: Set<int>| #[trigger] f0.closed_from(i0, t) implies done.subset_of(t)
                    && forall|m: int| 0 <= m < stack.len() ==> t.contains(
                    #[trigger] coord_indices(s, stack@)[m],
                ) by {
                    assert forall|m: int| 0 <= m < stack.len() implies t.contains(
                        #[trigger] coord_indices(s, stack@)[m],
                    ) by {
                        assert(m == 0);
                    }
                }
            }
        }
        while stack.len() > 0
            invariant
                f0 == old(self)@,
                f0.wf(),
                s == f0.size,
                in_bounds(s, coord@),
                i0 == encode(s, coord@),
                0 <= i0 < f0.tiles.len(),
                f0.eligible(i0),
                safe == ((f0.flags_correct() || !f0.delta) && !f0.tiles[i0].has_mine),
                f0.tiles[i0].has_mine ==> self@ == f0 && done == Set::<int>::empty() && stack@ == seq![coord],
                self@.wf(),
                state_ok(f0, self@, done),
                done.finite(),
                forall|d: int| done.contains(d) ==> f0.eligible(d) && !f0.tiles[d].has_mine,
                revealed == done.len() % 65536,
                stack_ok(f0, stack@, done, safe),
                done.contains(i0) || pending(coord_indices(s, stack@), i0),
                progress_ok(f0, coord_indices(s, stack@), done, done),
                minimal_ok(f0, i0, coord_indices(s, stack@), done),
            decreases self.unrevealed_tiles,
        {
            let ghost old_stack = stack@;
            let c = stack.pop().unwrap();
            let ghost j = encode(s, c@);
            let ghost before = self@;
            let ghost st_all = coord_indices(s, old_stack);
            let ghost st0 = coord_indices(s, stack@);
            let ghost done1 = done.insert(j);
            proof {
                assert(old_stack =~= stack@.push(c));
                assert(st_all[st_all.len() - 1] == j);
                assert(f0.eligible(st_all[st_all.len() - 1]));
                assert(forall|m: int| 0 <= m < st0.len() ==> st0[m] == st_all[m]);
                lemma_ranges_fit(f0, c@);
                lemma_sets_finite(before);
                assert(before.tiles[j].revealed == (f0.tiles[j].revealed || done.contains(j)));
                assert(before.hidden().contains(j));
                vstd::set_lib::lemma_set_empty_equivalency_len(before.hidden());
                lemma_wf_sane(before);
                assert(!before.tiles[j].flagged);
                assert(!done.contains(j));
                assert(done1.len() == done.len() + 1);
            }
            revealed = revealed.wrapping_add(1);
            proof {
                assert(revealed == done1.len() % 65536) by (nonlinear_arith)
                    requires
                        old_revealed_is(revealed as int, done.len() as int, done1.len() as int),
                ;
            }
            self.unrevealed_tiles -= 1;
            let res = self.index_mut(c).uncover();
            let ghost fe = self@;
            proof {
                assert(fe == with_revealed(before, j) || f0.tiles[j].has_mine);
                assert forall|x: int| 0 <= x < f0.tiles.len() implies (#[trigger] fe.tiles[x]).has_mine
                    == f0.tiles[x].has_mine && fe.tiles[x].flagged == f0.tiles[x].flagged
                    && fe.tiles[x].debug_marked == f0.tiles[x].debug_marked && fe.tiles[x].revealed
                    == (f0.tiles[x].revealed || done1.contains(x)) && fe.tiles[x].true_minecount
                    == before.tiles[x].true_minecount && fe.tiles[x].flagged_neighbours
                    == before.tiles[x].flagged_neighbours && fe.tiles[x].hidden_neighbours
                    == before.tiles[x].hidden_neighbours by {
                    assert(before.tiles[x].has_mine == f0.tiles[x].has_mine);
                    assert(before.tiles[x].revealed == (f0.tiles[x].revealed || done.contains(x)));
                }
                assert(f0.only_reveals(fe));
                assert(f0.revealed_since(fe) =~= done1);
            }
            match res {
                Ok(()) => {},
                Err(e) => {
                    proof {
                        assert(f0.tiles[j].has_mine);
                        if f0.tiles[i0].has_mine {
                            assert(old_stack =~= seq![coord]);
                            assert(j == i0);
                            assert(fe =~= with_revealed(f0, i0));
                        }
                        assert forall|x: int| 0 <= x < fe.tiles.len() implies 0
                            <= #[trigger] fe.tiles[x].true_minecount <= 80 && 0
                            <= fe.tiles[x].flagged_neighbours <= 80 && 0
                            <= fe.tiles[x].hidden_neighbours <= 80 by {
                            assert(before.tiles[x].true_minecount <= 80);
                        }
                        assert forall|t: Set<int>| f0.closed_from(i0, t) implies done1.subset_of(t) by {
                            assert(minimal_ok(f0, i0, st_all, done));
                            assert(t.contains(st_all[st_all.len() - 1]));
                        }
                        assert(safe ==> !f0.tiles[st_all[st_all.len() - 1]].has_mine);
                    }
                    return Err(e);
                },
            }
            let ghost fa = self@;
            proof {
                assert(fa == with_revealed(before, j));
            }
            let is_zero = QueryResult::Revealed(0) == self.query_tile(c);
            proof {
                lemma_nbr_set_size(s, j);
                lemma_sets_finite(fa);
                if is_zero {
                    assert(f0.spreads(j));
                    assert(f0.tiles[j].shown_count(f0.delta) == 0);
                } else if f0.spreads(j) {
                    assert(fa.tiles[j].blank(fa.delta));
                    assert(before.tile_ok(j));
                    assert forall|n: int| before.flags().contains(n) implies before.hidden().contains(n) by {
                        assert(before.tile_ok(n));
                    }
                    assert(before.flags().subset_of(before.hidden()));
                    lemma_equal_counts(nbr_set(s, j), before.flags(), before.hidden());
                    assert forall|n: int| nbr_set(s, j).contains(n) && f0.eligible(n) implies done.contains(n) by {
                        assert(before.tiles[n].flagged == f0.tiles[n].flagged);
                        assert(!nbr_set(s, j).intersect(before.flags()).contains(n));
                        assert(before.tiles[n].revealed == (f0.tiles[n].revealed || done.contains(n)));
                    }
                }
                assert forall|m: int| 0 <= m < stack@.len() implies in_bounds(s, #[trigger] stack@[m]@) by {
                    assert(old_stack[m] == stack@[m]);
                }
            }
            let ghost stack_mid = stack@;
            let settled = self.settle_neighbours(c, is_zero, &mut stack, Ghost(before));
            proof {
                assert(settled is Ok);
            }
            proof {
                let f2 = self@;
                let st2 = coord_indices(s, stack@);
                assert(stack_mid =~= old_stack.drop_last());
                assert forall|m: int| 0 <= m < st0.len() implies st2[m] == st0[m] by {
                    assert(stack@[m] == stack_mid[m]);
                }
                assert(state_ok(f0, f2, done1)) by {
                    assert forall|x: int| 0 <= x < f0.tiles.len() implies (#[trigger] f2.tiles[x]).revealed
                        == (f0.tiles[x].revealed || done1.contains(x)) && f2.tiles[x].true_minecount
                        == f0.tiles[x].true_minecount && f2.tiles[x].flagged_neighbours
                        == f0.tiles[x].flagged_neighbours by {
                        assert(marks(f2.tiles[x]) == marks(fa.tiles[x]));
                    }
                    assert forall|x: int| 0 <= x < f0.tiles.len() implies (#[trigger] f2.tiles[x]).has_mine
                        == f0.tiles[x].has_mine && f2.tiles[x].flagged == f0.tiles[x].flagged
                        && f2.tiles[x].debug_marked == f0.tiles[x].debug_marked && (f0.tiles[x].revealed
                        ==> f2.tiles[x].revealed) by {
                        assert(marks(f2.tiles[x]) == marks(fa.tiles[x]));
                    }
                }
                assert(stack_ok(f0, stack@, done1, safe)) by {
                    assert forall|m: int| 0 <= m < stack@.len() implies f0.eligible(#[trigger] st2[m])
                        && !done1.contains(st2[m]) && (safe ==> !f0.tiles[st2[m]].has_mine) by {
                        if m < st0.len() {
                            assert(st2[m] == st_all[m]);
                            assert(st_all[m] != st_all[st_all.len() - 1]);
                        } else {
                            assert(st2[m] == encode(s, stack@[m]@));
                            assert(fa.tiles[st2[m]].revealed == (f0.tiles[st2[m]].revealed || done1.contains(st2[m])));
                            if safe {
                                lemma_zero_is_safe(f0, j, st2[m]);
                            }
                        }
                    }
                    assert forall|m1: int, m2: int| 0 <= m1 < stack@.len() && 0 <= m2 < stack@.len() && m1 != m2
                        implies st2[m1] != st2[m2] by {
                        if m1 < st0.len() && m2 < st0.len() {
                            assert(st_all[m1] != st_all[m2]);
                        } else if m1 < st0.len() {
                            assert(!pending(coord_indices(s, stack_mid), st2[m2]));
                            assert(coord_indices(s, stack_mid)[m1] == st2[m1]);
                        } else if m2 < st0.len() {
                            assert(!pending(coord_indices(s, stack_mid), st2[m1]));
                            assert(coord_indices(s, stack_mid)[m2] == st2[m2]);
                        }
                    }
                }
                assert(done1.contains(i0) || pending(st2, i0)) by {
                    if !done1.contains(i0) {
                        let m = choose|m: int| 0 <= m < st_all.len() && st_all[m] == i0;
                        assert(m < st0.len());
                        assert(st2[m] == i0);
                    }
                }
                assert(progress_ok(f0, st2, done1, done1)) by {
                    assert forall|t: int, n: int|
                        #![trigger done1.contains(t), nbr_set(f0.size, t).contains(n)]
                        done1.contains(t) && f0.spreads(t) && nbr_set(f0.size, t).contains(n) && f0.eligible(n)
                        implies done1.contains(n) || pending(st2, n) by {
                        if t == j {
                            if is_zero && !done1.contains(n) {
                                assert(fa.tiles[n].revealed == (f0.tiles[n].revealed || done1.contains(n)));
                                assert(fa.eligible(n));
                            }
                        } else {
                            assert(done.contains(t));
                            if !done1.contains(n) {
                                assert(pending(st_all, n));
                                let m = choose|m: int| 0 <= m < st_all.len() && st_all[m] == n;
                                assert(m < st0.len());
                                assert(st2[m] == n);
                            }
                        }
                    }
                }
                assert(minimal_ok(f0, i0, st2, done1)) by {
                    assert forall|t: Set<int>| #[trigger] f0.closed_from(i0, t) implies done1.subset_of(t)
                        && forall|m: int| 0 <= m < st2.len() ==> t.contains(#[trigger] st2[m]) by {
                        assert(minimal_ok(f0, i0, st_all, done));
                        assert(t.contains(st_all[st_all.len() - 1]));
                        assert forall|m: int| 0 <= m < st2.len() implies t.contains(#[trigger] st2[m]) by {
                            if m < st0.len() {
                                assert(st2[m] == st_all[m]);
                            } else {
                                assert(st2[m] == encode(s, stack@[m]@));
                                assert(fa.tiles[st2[m]].revealed == (f0.tiles[st2[m]].revealed || done1.contains(st2[m])));
                                assert(f0.eligible(st2[m]));
                            }
                        }
                    }
                }
                assert forall|d: int| done1.contains(d) implies f0.eligible(d) && !f0.tiles[d].has_mine by {}
                assert(done1.finite());
                done = done1;
            }
        }
        proof {
            assert(progress_ok(f0, coord_indices(s, stack@), done, done));
            assert(f0.closed_from(i0, done));
            assert(f0.revealed_since(self@) =~= done) by {
                assert forall|x: int| 0 <= x < f0.tiles.len() implies (#[trigger] self@.tiles[x]).revealed
                    == (f0.tiles[x].revealed || done.contains(x)) by {}
            }
        }
        let ghost prev = self@;
        self.started = true;
        proof {
            assert(self@ == (FieldView { started: true, ..prev }));
            assert(self@.mines() =~= prev.mines());
            assert(self@.flags() =~= prev.flags());
            assert(self@.hidden() =~= prev.hidden());
            assert forall|x: int| 0 <= x < self@.tiles.len() implies #[trigger] self@.tile_ok(x) by {
                assert(prev.tile_ok(x));
            }
            assert(f0.revealed_since(self@) =~= f0.revealed_since(prev));
        }
        Ok(revealed)
    }

    /// Reveals the hidden, unflagged tile at `coord`, and with it the
    /// cascade of tiles that spread. With `delta` on, it then reveals every
    /// hidden unflagged neighbour of the tiles that show zero and can be
    /// reached from `coord` through such tiles (with the cascades these
    /// start). Fails with `Exploded` when a mine is revealed.
    pub fn reveal_tile(&mut self, coord: Coordinate) -> (r: tile::TileResult)
        requires
            old(self)@.wf(),
            in_bounds(old(self)@.size, coord@),
            old(self)@.eligible(encode(old(self)@.size, coord@)) || (old(self)@.tile(coord@).revealed
                && old(self)@.unrevealed_tiles >= 1),
        ensures
            old(self)@.only_reveals(final(self)@),
            old(self)@.started ==> final(self)@.started,
            old(self)@.tile(coord@).revealed ==> (r matches Err(tile::TileError::AlreadyRevealed))
                && final(self)@ == (FieldView {
                unrevealed_tiles: old(self)@.unrevealed_tiles - 1,
                ..old(self)@
            }),
            !old(self)@.tile(coord@).revealed ==> {
                &&& (r is Ok || r matches Err(tile::TileError::Exploded))
                &&& (old(self)@.flags_correct() || !old(self)@.delta) && !old(self)@.tile(
                    coord@,
                ).has_mine ==> r is Ok
                &&& old(self)@.tile(coord@).has_mine ==> (r matches Err(tile::TileError::Exploded))
                    && final(self)@ == with_revealed(old(self)@, encode(old(self)@.size, coord@))
            },
            r is Ok ==> reveal_done(old(self)@, encode(old(self)@.size, coord@), final(self)@)
                && forall|j: int| #[trigger] old(self)@.revealed_since(final(self)@).contains(j)
                ==> !final(self)@.tiles[j].has_mine,
            r is Ok && old(self)@.mines_hidden() ==> final(self)@.mines_hidden(),
            r matches Err(tile::TileError::Exploded) ==> final(self)@.sane() && reveal_bounded(
                old(self)@,
                encode(old(self)@.size, coord@),
                final(self)@,
            ) && exists|j: int|
                0 <= j < final(self)@.tiles.len() && final(self)@.tiles[j].has_mine
                    && final(self)@.tiles[j].revealed,
    {
        let ghost f0 = self@;
        let ghost s = f0.size;
        let ghost i0 = encode(s, coord@);
        proof {
            lemma_ranges_fit(f0, coord@);
        }
        if self.index(coord).is_revealed() {
            self.unrevealed_tiles -= 1;
            let ghost f1 = self@;
            let res = self.index_mut(coord).uncover();
            proof {
                assert(self@.tiles =~= f1.tiles);
            }
            return match res {
                Ok(()) => Err(tile::TileError::AlreadyRevealed),
                Err(e) => Err(e),
            };
        }
        match self.reveal_inner(coord) {
            Ok(_) => {},
            Err(e) => {
                proof {
                    assert(reveal_bounded(f0, i0, self@));
                }
                return Err(e);
            },
        }
        let ghost mid = self@;
        proof {
            assert(cascade(f0, i0, mid));
            assert(f0.revealed_since(mid).contains(i0));
        }
        if !self.delta {
            proof {
                lemma_encode(s, coord@);
                if f0.mines_hidden() {
                    lemma_keeps_mines_hidden(f0, self@);
                }
            }
            return Ok(());
        }
        let zeros = self.zero_region(coord);
        let ghost zi = coord_indices(s, zeros@);
        proof {
            assert forall|m: int| 0 <= m < zeros.len() implies mid.tiles[#[trigger] zi[m]].shown_count(
                mid.delta,
            ) == 0 by {
                assert(mid.shows_zero(zi[m]));
            }
        }
        proof {
            if f0.flags_correct() {
                assert(mid.flags() =~= f0.flags()) by {
                    assert forall|x: int| 0 <= x < mid.tiles.len() implies mid.tiles[x].flagged == f0.tiles[x].flagged by {
                        assert(mid.tiles[x].has_mine == f0.tiles[x].has_mine);
                    }
                }
                assert(mid.mines() =~= f0.mines()) by {
                    assert forall|x: int| 0 <= x < mid.tiles.len() implies mid.tiles[x].has_mine == f0.tiles[x].has_mine by {
                        assert(mid.tiles[x].has_mine == f0.tiles[x].has_mine);
                    }
                }
                assert(mid.flags_correct());
            }
        }
        let res = self.reveal_around(&zeros);
        proof {
            let fin = self@;
            lemma_only_reveals_trans(f0, mid, fin);
            assert forall|n: int| #[trigger] beside_zero(mid, i0, n) implies exists|m: int|
                0 <= m < zeros.len() && nbr_set(s, zi[m]).contains(n) && mid.eligible(n) by {
                let z = choose|z: int|
                    0 <= z < mid.tiles.len() && #[trigger] mid.zero_reach(i0, z) && nbr_set(
                        mid.size,
                        z,
                    ).contains(n) && mid.eligible(n);
                assert(pending(zi, z));
                let m = choose|m: int| 0 <= m < zi.len() && zi[m] == z;
            }
            assert forall|t: Set<int>|
                f0.revealed_since(mid).subset_of(t) && (forall|n: int| #[trigger] beside_zero(mid, i0, n) ==> t.contains(n))
                    && f0.spread_closed(t) implies f0.revealed_since(fin).subset_of(t) by {
                assert(around_hyp(mid, zi, t)) by {
                    assert forall|m: int, n: int|
                        #![trigger zi[m], nbr_set(mid.size, zi[m]).contains(n)]
                        0 <= m < zi.len() && nbr_set(mid.size, zi[m]).contains(n) && mid.eligible(n)
                        implies t.contains(n) by {
                        assert(pending(zi, zi[m]));
                        assert(mid.zero_reach(i0, zi[m]));
                        lemma_encode(s, zeros@[m]@);
                        assert(beside_zero(mid, i0, n));
                    }
                    assert forall|a: int, n: int|
                        #![trigger t.contains(a), nbr_set(mid.size, a).contains(n)]
                        0 <= a < mid.tiles.len() && t.contains(a) && mid.spreads(a) && nbr_set(mid.size, a).contains(n) && mid.eligible(n)
                        implies t.contains(n) by {
                        lemma_wf_same_counts(f0, mid, a);
                    }
                }
                assert(mid.revealed_since(fin).subset_of(t));
                assert(f0.revealed_since(fin) == f0.revealed_since(mid).union(mid.revealed_since(fin)));
            }
            assert(reveal_bounded(f0, i0, fin)) by {
                assert(cascade(f0, i0, mid));
            }
            if res is Ok {
                assert forall|j: int| #[trigger] f0.revealed_since(fin).contains(j) implies !fin.tiles[j].has_mine by {
                    if f0.revealed_since(mid).contains(j) {
                        assert(!mid.tiles[j].has_mine);
                    } else {
                        assert(mid.revealed_since(fin).contains(j));
                    }
                }
                assert(zeros_cleared(f0, mid, i0, fin)) by {
                    assert forall|a: int, n: int|
                        #![trigger f0.revealed_since(fin).contains(a), nbr_set(f0.size, a).contains(n)]
                        0 <= a < f0.tiles.len() && f0.revealed_since(fin).contains(a) && f0.spreads(a)
                            && nbr_set(f0.size, a).contains(n) && f0.eligible(n)
                        implies f0.revealed_since(fin).contains(n) by {
                        if f0.revealed_since(mid).contains(a) {
                        } else {
                            lemma_wf_same_counts(f0, mid, a);
                            if !mid.tiles[n].revealed {
                                assert(mid.eligible(n));
                            }
                        }
                    }
                    assert forall|n: int| #[trigger] beside_zero(mid, i0, n) implies fin.tiles[n].revealed by {
                        let m = choose|m: int| 0 <= m < zeros.len() && nbr_set(s, zi[m]).contains(n) && mid.eligible(n);
                    }
                }
                assert(fin.tile(coord@).revealed);
                assert(reveal_done(f0, i0, fin));
                if f0.mines_hidden() {
                    lemma_keeps_mines_hidden(f0, fin);
                }
            }
        }
        res
    }

    /// What a draw of `draw` means when a game is started: the tile at
    /// position `draw` modulo the number of tiles, and whether it has mined
    /// neighbours (a miss), holds a mine, or can start the game.
    pub fn judge_draw(&self, draw: u32) -> (r: (usize, StartDraw))
        requires
            self@.shape_ok(),
        ensures
            r.0 == draw as int % self@.tiles.len() as int,
            r.1 == start_draw(self@, draw as int),
    {
        proof {
            crate::grid::lemma_volume_positive(self@.size);
        }
        let index = draw as usize % self.tiles.len();
        let ghost j = index as int;
        proof {
            assert(self@.tiles[j] == self.tiles@[j]@);
        }
        if self.tiles[index].true_minecount() > 0 {
            return (index, StartDraw::Miss);
        }
        if self.tiles[index].has_mine() {
            return (index, StartDraw::Mine);
        }
        (index, StartDraw::Start)
    }

    /// One draw of a start: judges the tile that `draw` lands on and, when
    /// it can start the game, reveals it.
    pub fn quickstart_step(&mut self, draw: u32) -> (r: StartDraw)
        requires
            startable(old(self)@),
        ensures
            r == start_draw(old(self)@, draw as int),
            r != StartDraw::Start ==> final(self)@ == old(self)@,
            r == StartDraw::Start ==> reveal_done(
                old(self)@,
                draw as int % old(self)@.tiles.len() as int,
                final(self)@,
            ) && (old(self)@.mines_hidden() ==> final(self)@.mines_hidden()),
    {
        let ghost f0 = self@;
        let (index, judged) = self.judge_draw(draw);
        match judged {
            StartDraw::Start => {
                let ghost j = index as int;
                let coord = Self::convert_index(self.size, index);
                proof {
                    crate::grid::lemma_volume_positive(f0.size);
                    lemma_decode(f0.size, j);
                    assert(f0.tile_ok(j));
                    assert(f0.tiles[j].true_minecount == 0 && !f0.tiles[j].has_mine);
                }
                self.reveal_tile(coord).expect("Not Possible!");
            },
            _ => {},
        }
        judged
    }

    /// Starts a game from the given draws, in order: a draw on a tile with
    /// mined neighbours is a miss, a draw on a mine is skipped, and the first
    /// draw on a tile with neither starts the game, unless 10000 misses came
    /// first. Fails, leaving the field as it was, when no draw starts it.
    pub fn start_with_draws(&mut self, draws: &Vec<u32>) -> (r: Result<(), String>)
        requires
            startable(old(self)@),
        ensures
            r is Ok <==> exists|k: int| starts_at(old(self)@, draws@, k),
            r is Ok ==> exists|k: int|
                #[trigger] starts_at(old(self)@, draws@, k) && reveal_done(
                    old(self)@,
                    draws@[k] as int % old(self)@.tiles.len() as int,
                    final(self)@,
                ),
            r matches Err(e) ==> final(self)@ == old(self)@ && e@
                == "Cannot find tile without adjacent mines!"@,
    {
        let ghost f0 = self@;
        let mut count: u32 = 0;
        let mut k: usize = 0;
        while k < draws.len() && count < 10000
            invariant
                self@ == f0,
                f0 == old(self)@,
                startable(f0),
                k <= draws.len(),
                count == misses(f0, draws@.take(k as int)),
                count <= 10000,
                forall|i: int| 0 <= i < k ==> start_draw(f0, draws@[i] as int) != StartDraw::Start,
            decreases draws.len() - k,
        {
            proof {
                lemma_misses_step(f0, draws@, k as int);
            }
            match self.quickstart_step(draws[k]) {
                StartDraw::Start => {
                    proof {
                        assert(starts_at(f0, draws@, k as int));
                    }
                    return Ok(());
                },
                StartDraw::Miss => {
                    count += 1;
                },
                StartDraw::Mine => {},
            }
            k += 1;
        }
        proof {
            assert forall|k2: int| !starts_at(f0, draws@, k2) by {
                if 0 <= k2 < draws@.len() && k2 >= k {
                    lemma_misses_monotone(f0, draws@, k as int, k2);
                }
            }
        }
        Err("Cannot find tile without adjacent mines!".to_owned())
    }

    /// Starts a game by revealing a random tile that has no mine and no
    /// mined neighbour: the draws are handled as `start_with_draws` does,
    /// and besides giving up after 10000 misses it gives up after
    /// `u64::MAX` draws in all. On a field without mines the first draw
    /// starts the game.
    pub fn quickstart(&mut self) -> (r: Result<(), String>)
        requires
            startable(old(self)@),
        ensures
            old(self)@.minecount == 0 ==> r is Ok,
            exists|d: Seq<u32>| #[trigger] start_run(old(self)@, d, final(self)@, r is Ok),
            r is Ok && old(self)@.mines_hidden() ==> final(self)@.mines_hidden(),
            r matches Err(e) ==> e@ == "Cannot find tile without adjacent mines!"@,
    {
        let ghost f0 = self@;
        let mut count: u32 = 0;
        let mut attempts: u64 = 0;
        let ghost mut taken: Seq<u32> = Seq::empty();
        proof {
            crate::grid::lemma_volume_positive(f0.size);
            if f0.minecount == 0 {
                lemma_sets_finite(f0);
                vstd::set_lib::lemma_set_empty_equivalency_len(f0.mines());
            }
        }
        while count < 10000 && attempts < u64::MAX
            invariant
                self@ == f0,
                f0 == old(self)@,
                startable(f0),
                f0.tiles.len() >= 1,
                attempts == taken.len(),
                count == misses(f0, taken),
                count <= 10000,
                forall|i: int| 0 <= i < taken.len() ==> start_draw(f0, taken[i] as int) != StartDraw::Start,
                forall|i: int| 0 <= i < taken.len() ==> drawn(#[trigger] taken[i]),
                f0.minecount == 0 ==> count == 0 && attempts == 0 && f0.mines() == Set::<int>::empty(),
            decreases u64::MAX - attempts,
        {
            attempts += 1;
            let draw = crate::random::draw();
            let ghost before = taken;
            proof {
                taken = taken.push(draw);
                assert(taken.drop_last() =~= before);
                assert(taken.take(before.len() as int) =~= before);
                let j = draw as int % f0.tiles.len() as int;
                if f0.minecount == 0 {
                    assert(0 <= j < f0.tiles.len());
                    assert(f0.tile_ok(j));
                    assert(nbr_set(f0.size, j).intersect(f0.mines()) =~= Set::empty());
                    assert(!f0.mines().contains(j));
                    assert(start_draw(f0, draw as int) == StartDraw::Start);
                }
            }
            match self.quickstart_step(draw) {
                StartDraw::Start => {
                    proof {
                        assert(starts_at(f0, taken, taken.len() - 1));
                        assert(start_run(f0, taken, self@, true));
                    }
                    return Ok(());
                },
                StartDraw::Miss => {
                    count += 1;
                },
                StartDraw::Mine => {},
            }
        }
        proof {
            assert forall|k: int| !starts_at(f0, taken, k) by {}
            assert(start_run(f0, taken, self@, false));
        }
        Err("Cannot find tile without adjacent mines!".to_owned())
    }

    /// Reveals, through `reveal_inner`, every hidden unflagged neighbour of
    /// every tile in `zeros`.
    fn reveal_around(&mut self, zeros: &Vec<Coordinate>) -> (r: tile::TileResult)
        requires
            old(self)@.wf(),
            forall|m: int| 0 <= m < zeros.len() ==> in_bounds(old(self)@.size, #[trigger] zeros@[m]@),
            forall|m: int|
                0 <= m < zeros.len() ==> old(self)@.tiles[#[trigger] coord_indices(
                    old(self)@.size,
                    zeros@,
                )[m]].shown_count(old(self)@.delta) == 0,
        ensures
            old(self)@.only_reveals(final(self)@),
            r is Ok || r matches Err(tile::TileError::Exploded),
            old(self)@.flags_correct() ==> r is Ok,
            old(self)@.started ==> final(self)@.started,
            forall|t: Set<int>|
                around_hyp(old(self)@, coord_indices(old(self)@.size, zeros@), t) ==> old(
                    self,
                )@.revealed_since(final(self)@).subset_of(t),
            forall|j: int| #[trigger] old(self)@.revealed_since(final(self)@).contains(j) && r is Ok
                ==> !final(self)@.tiles[j].has_mine,
            r is Ok ==> final(self)@.wf() && old(self)@.spread_closed(
                old(self)@.revealed_since(final(self)@),
            ) && forall|m: int, n: int|
                0 <= m < zeros.len() && nbr_set(old(self)@.size, coord_indices(old(self)@.size, zeros@)[m]).contains(n)
                    && old(self)@.eligible(n) ==> final(self)@.tiles[n].revealed,
            r is Err ==> final(self)@.sane() && exists|j: int|
                0 <= j < final(self)@.tiles.len() && final(self)@.tiles[j].has_mine
                    && final(self)@.tiles[j].revealed,
    {
        let ghost f0 = self@;
        let ghost s = f0.size;
        let ghost zi = coord_indices(s, zeros@);
        proof {
            assert(f0.revealed_since(f0) =~= Set::empty());
            lemma_sets_finite(f0);
        }
        let mut zz: usize = 0;
        while zz < zeros.len()
            invariant
                f0 == old(self)@,
                f0.wf(),
                s == f0.size,
                zi == coord_indices(s, zeros@),
                zz <= zeros.len(),
                forall|m: int| 0 <= m < zeros.len() ==> in_bounds(s, #[trigger] zeros@[m]@),
                forall|m: int| 0 <= m < zeros.len() ==> f0.tiles[#[trigger] zi[m]].shown_count(f0.delta) == 0,
                self@.wf(),
                f0.only_reveals(self@),
                f0.started ==> self@.started,
                f0.spread_closed(f0.revealed_since(self@)),
                forall|j: int| #[trigger] f0.revealed_since(self@).contains(j) ==> !f0.tiles[j].has_mine,
                forall|t: Set<int>| around_hyp(f0, zi, t) ==> f0.revealed_since(self@).subset_of(t),
                forall|m: int, n: int|
                    0 <= m < zz && nbr_set(s, zi[m]).contains(n) && f0.eligible(n) ==> self@.tiles[n].revealed,
            decreases zeros.len() - zz,
        {
            let zero = zeros[zz];
            let ghost z = zi[zz as int];
            proof {
                lemma_ranges_fit(self@, zero@);
            }
            let neighbours = self.get_neighbours(zero, 1);
            let ghost idxs = coord_indices(s, neighbours@);
            proof {
                lemma_neighbour_indices(s, zero@, neighbours@);
            }
            let mut k: usize = 0;
            while k < neighbours.len()
                invariant
                    f0 == old(self)@,
                    f0.wf(),
                    s == f0.size,
                    zi == coord_indices(s, zeros@),
                    zz < zeros.len(),
                    z == zi[zz as int],
                    z == encode(s, zero@),
                    0 <= z < f0.tiles.len(),
                    in_bounds(s, zero@),
                    f0.tiles[z].shown_count(f0.delta) == 0,
                    self@.wf(),
                    f0.only_reveals(self@),
                    f0.started ==> self@.started,
                    f0.spread_closed(f0.revealed_since(self@)),
                    forall|j: int| #[trigger] f0.revealed_since(self@).contains(j) ==> !f0.tiles[j].has_mine,
                    forall|t: Set<int>| around_hyp(f0, zi, t) ==> f0.revealed_since(self@).subset_of(t),
                    forall|m: int, n: int|
                        0 <= m < zz && nbr_set(s, zi[m]).contains(n) && f0.eligible(n) ==> self@.tiles[n].revealed,
                    idxs == coord_indices(s, neighbours@),
                    idxs.len() == neighbours.len(),
                    0 <= k <= neighbours.len(),
                    forall|m: int| 0 <= m < neighbours.len() ==> in_bounds(s, #[trigger] neighbours@[m]@),
                    forall|m: int| 0 <= m < neighbours.len() ==> nbr_set(s, z).contains(#[trigger] idxs[m]),
                    forall|n: int| nbr_set(s, z).contains(n) ==> exists|m: int| 0 <= m < neighbours.len() && #[trigger] idxs[m] == n,
                    forall|m: int| 0 <= m < k && f0.eligible(#[trigger] idxs[m]) ==> self@.tiles[idxs[m]].revealed,
                decreases neighbours.len() - k,
            {
                let neighbour = neighbours[k];
                let ghost n = idxs[k as int];
                let ghost cur = self@;
                proof {
                    lemma_ranges_fit(cur, neighbour@);
                    assert(encode(s, neighbour@) == n);
                    lemma_wf_sane(cur);
                }
                let tile = self.index(neighbour);
                if tile.is_revealed() || tile.is_flagged() {
                    k += 1;
                    continue;
                }
                let res = self.reveal_inner(neighbour);
                proof {
                    let nxt = self@;
                    lemma_only_reveals_trans(f0, cur, nxt);
                    lemma_only_reveals_trans(cur, nxt, nxt);
                    assert(cur.eligible(n));
                    assert(f0.eligible(n));
                    assert(nbr_set(s, zi[zz as int]).contains(n));
                    assert forall|t: Set<int>| around_hyp(f0, zi, t) implies f0.revealed_since(nxt).subset_of(t) by {
                        assert(nbr_set(f0.size, zi[zz as int]).contains(n));
                        assert(t.contains(n));
                        assert(f0.revealed_since(cur).subset_of(t));
                        assert(cur.closed_from(n, t)) by {
                            assert forall|a: int, b: int|
                                #![trigger t.contains(a), nbr_set(cur.size, a).contains(b)]
                                0 <= a < cur.tiles.len() && t.contains(a) && cur.spreads(a) && nbr_set(cur.size, a).contains(b) && cur.eligible(b)
                                implies t.contains(b) by {
                                lemma_wf_same_counts(f0, cur, a);
                            }
                        }
                        assert(cur.revealed_since(nxt).subset_of(t));
                    }
                    if f0.flags_correct() {
                        lemma_wf_same_counts(f0, cur, z);
                        assert(cur.flags_correct()) by {
                            assert(cur.flags() =~= f0.flags());
                            assert(cur.mines() =~= f0.mines());
                        }
                        crate::grid::lemma_nbr_symmetric(s, z, n);
                        lemma_zero_is_safe(cur, z, n);
                    }
                }
                match res {
                    Ok(_) => {},
                    Err(e) => {
                        return Err(e);
                    },
                }
                proof {
                    let nxt = self@;
                    assert forall|j: int| #[trigger] f0.revealed_since(nxt).contains(j) implies !f0.tiles[j].has_mine by {
                        if cur.revealed_since(nxt).contains(j) {
                            assert(!nxt.tiles[j].has_mine);
                        }
                    }
                    assert(f0.spread_closed(f0.revealed_since(nxt))) by {
                        assert forall|a: int, b: int|
                            #![trigger f0.revealed_since(nxt).contains(a), nbr_set(f0.size, a).contains(b)]
                            0 <= a < f0.tiles.len() && f0.revealed_since(nxt).contains(a) && f0.spreads(a) && nbr_set(f0.size, a).contains(b) && f0.eligible(b)
                            implies f0.revealed_since(nxt).contains(b) by {
                            if !f0.revealed_since(cur).contains(a) {
                                lemma_wf_same_counts(f0, cur, a);
                                if !cur.tiles[b].revealed {
                                    assert(cur.eligible(b));
                                }
                            }
                        }
                    }
                }
                k += 1;
            }
            zz += 1;
        }
        Ok(())
    }

    /// The tiles reachable from `coord` through neighbours that all show
    /// zero, found breadth-first.
    fn zero_region(&self, coord: Coordinate) -> (zeros: Vec<Coordinate>)
        requires
            self@.wf(),
            in_bounds(self@.size, coord@),
        ensures
            forall|m: int| 0 <= m < zeros.len() ==> in_bounds(self@.size, #[trigger] zeros@[m]@),
            forall|m: int|
                0 <= m < zeros.len() ==> self@.shows_zero(
                    #[trigger] coord_indices(self@.size, zeros@)[m],
                ),
            forall|z: int|
                self@.zero_reach(encode(self@.size, coord@), z) == pending(
                    coord_indices(self@.size, zeros@),
                    z,
                ),
    {
        let ghost f = self@;
        let ghost s = f.size;
        let ghost i0 = encode(s, coord@);
        let ghost n_tiles = f.tiles.len() as int;
        proof {
            lemma_ranges_fit(f, coord@);
            lemma_wf_sane(f);
        }
        let mut zeros: Vec<Coordinate> = Vec::new();
        let mut zero_queue: VecDeque<Coordinate> = VecDeque::new();
        zero_queue.push_back(coord);
        let ghost mut visited: Set<int> = Set::empty();
        proof {
            assert(coord_indices(s, zero_queue@)[0] == i0);
        }
        while zero_queue.len() > 0
            invariant
                f == self@,
                f.wf(),
                f.sane(),
                s == f.size,
                n_tiles == f.tiles.len(),
                i0 == encode(s, coord@),
                0 <= i0 < n_tiles,
                zeros.len() <= n_tiles,
                forall|m: int| 0 <= m < zeros.len() ==> in_bounds(s, #[trigger] zeros@[m]@),
                forall|m: int| 0 <= m < zero_queue@.len() ==> in_bounds(s, #[trigger] zero_queue@[m]@),
                forall|m1: int, m2: int|
                    0 <= m1 < zeros.len() && 0 <= m2 < zeros.len() && m1 != m2 ==> coord_indices(
                        s,
                        zeros@,
                    )[m1] != coord_indices(s, zeros@)[m2],
                forall|m: int|
                    0 <= m < zeros.len() ==> f.shows_zero(#[trigger] coord_indices(s, zeros@)[m]),
                forall|m: int|
                    0 <= m < zero_queue@.len() ==> #[trigger] coord_indices(s, zero_queue@)[m] == i0
                        || pending(coord_indices(s, zeros@), coord_indices(s, zero_queue@)[m]),
                forall|m: int|
                    0 <= m < zeros.len() ==> visited.contains(#[trigger] coord_indices(s, zeros@)[m])
                        || pending(coord_indices(s, zero_queue@), coord_indices(s, zeros@)[m]),
                visited.contains(i0) || pending(coord_indices(s, zero_queue@), i0),
                forall|a: int, n: int|
                    #![trigger visited.contains(a), nbr_set(s, a).contains(n)]
                    visited.contains(a) && nbr_set(s, a).contains(n) && f.shows_zero(n) ==> pending(
                        coord_indices(s, zeros@),
                        n,
                    ),
                forall|zs: Set<int>|
                    #[trigger] f.zero_closed(i0, zs) ==> forall|m: int|
                        0 <= m < zeros.len() ==> zs.contains(#[trigger] coord_indices(s, zeros@)[m]),
                forall|a: int| visited.contains(a) ==> a == i0 || pending(coord_indices(s, zeros@), a),
            decreases n_tiles - zeros.len(), zero_queue.len(),
        {
            let ghost old_queue = zero_queue@;
            let c = zero_queue.pop_front().unwrap();
            let ghost p = encode(s, c@);
            proof {
                assert(old_queue[0] == c);
                assert(forall|m: int| 0 <= m < zero_queue@.len() ==> zero_queue@[m] == old_queue[m + 1]);
                lemma_ranges_fit(f, c@);
                let oq = coord_indices(s, old_queue);
                let nq = coord_indices(s, zero_queue@);
                assert(oq[0] == p);
                assert forall|m: int| 0 <= m < nq.len() implies nq[m] == oq[m + 1] by {}
                assert forall|m: int| 0 <= m < zero_queue@.len() implies #[trigger] nq[m] == i0
                    || pending(coord_indices(s, zeros@), nq[m]) by {
                    assert(oq[m + 1] == i0 || pending(coord_indices(s, zeros@), oq[m + 1]));
                }
                assert forall|m: int| 0 <= m < zeros.len() implies visited.contains(#[trigger] coord_indices(s, zeros@)[m])
                    || pending(nq, coord_indices(s, zeros@)[m]) || coord_indices(s, zeros@)[m] == p by {
                    let z = coord_indices(s, zeros@)[m];
                    if !visited.contains(z) && z != p {
                        let m2 = choose|m2: int| 0 <= m2 < oq.len() && oq[m2] == z;
                        assert(m2 != 0);
                        assert(nq[m2 - 1] == z);
                    }
                }
                assert(visited.contains(i0) || pending(nq, i0) || p == i0) by {
                    if !visited.contains(i0) && p != i0 {
                        let m2 = choose|m2: int| 0 <= m2 < oq.len() && oq[m2] == i0;
                        assert(m2 != 0);
                        assert(nq[m2 - 1] == i0);
                    }
                }
            }
            let neighbours = self.get_neighbours(c, 1);
            let ghost idxs = coord_indices(s, neighbours@);
            proof {
                lemma_neighbour_indices(s, c@, neighbours@);
            }
            let ghost zeros_at_pop = zeros@;
            let ghost queue_at_pop = zero_queue@.len();
            let mut k: usize = 0;
            while k < neighbours.len()
                invariant
                    f == self@,
                    f.wf(),
                    f.sane(),
                    s == f.size,
                    n_tiles == f.tiles.len(),
                    i0 == encode(s, coord@),
                    0 <= i0 < n_tiles,
                    p == encode(s, c@),
                    0 <= p < n_tiles,
                    in_bounds(s, c@),
                    p == i0 || pending(coord_indices(s, zeros@), p),
                    zeros.len() <= n_tiles,
                    zeros@.len() >= zeros_at_pop.len(),
                    zero_queue@.len() + zeros_at_pop.len() == queue_at_pop + zeros@.len(),
                    forall|m: int| 0 <= m < zeros.len() ==> in_bounds(s, #[trigger] zeros@[m]@),
                    forall|m: int| 0 <= m < zero_queue@.len() ==> in_bounds(s, #[trigger] zero_queue@[m]@),
                    forall|m1: int, m2: int|
                        0 <= m1 < zeros.len() && 0 <= m2 < zeros.len() && m1 != m2 ==> coord_indices(
                            s,
                            zeros@,
                        )[m1] != coord_indices(s, zeros@)[m2],
                    forall|m: int|
                        0 <= m < zeros.len() ==> f.shows_zero(#[trigger] coord_indices(s, zeros@)[m]),
                    forall|m: int|
                        0 <= m < zero_queue@.len() ==> #[trigger] coord_indices(s, zero_queue@)[m] == i0
                            || pending(coord_indices(s, zeros@), coord_indices(s, zero_queue@)[m]),
                    forall|m: int|
                        0 <= m < zeros.len() ==> visited.contains(#[trigger] coord_indices(s, zeros@)[m])
                            || pending(coord_indices(s, zero_queue@), coord_indices(s, zeros@)[m])
                            || coord_indices(s, zeros@)[m] == p,
                    visited.contains(i0) || pending(coord_indices(s, zero_queue@), i0) || p == i0,
                    forall|a: int, n: int|
                        #![trigger visited.contains(a), nbr_set(s, a).contains(n)]
                        visited.contains(a) && nbr_set(s, a).contains(n) && f.shows_zero(n) ==> pending(
                            coord_indices(s, zeros@),
                            n,
                        ),
                    forall|zs: Set<int>|
                        #[trigger] f.zero_closed(i0, zs) ==> forall|m: int|
                            0 <= m < zeros.len() ==> zs.contains(#[trigger] coord_indices(s, zeros@)[m]),
                    forall|a: int| visited.contains(a) ==> a == i0 || pending(coord_indices(s, zeros@), a),
                    idxs == coord_indices(s, neighbours@),
                    idxs.len() == neighbours.len(),
                    0 <= k <= neighbours.len(),
                    forall|m: int| 0 <= m < neighbours.len() ==> in_bounds(s, #[trigger] neighbours@[m]@),
                    forall|m: int|
                        0 <= m < neighbours.len() ==> nbr_set(s, p).contains(#[trigger] idxs[m]),
                    forall|m: int|
                        0 <= m < k && f.shows_zero(#[trigger] idxs[m]) ==> pending(coord_indices(s, zeros@), idxs[m]),
                decreases neighbours.len() - k,
            {
                let neighbour = neighbours[k];
                let ghost x = idxs[k as int];
                let ghost zs_before = zeros@;
                let ghost q_before = zero_queue@;
                proof {
                    lemma_ranges_fit(f, neighbour@);
                    assert(encode(s, neighbour@) == x);
                }
                let known = stack_contains(&zeros, neighbour);
                if known {
                    proof {
                        let m = choose|m: int| 0 <= m < zeros@.len() && #[trigger] zeros@[m]@ == neighbour@;
                        assert(coord_indices(s, zeros@)[m] == x);
                    }
                    k += 1;
                    continue;
                }
                let q = self.query_tile(neighbour);
                proof {
                    lemma_query_zero(f, neighbour@);
                }
                match q {
                    QueryResult::Revealed(0) => {
                        proof {
                            assert forall|m: int| 0 <= m < zs_before.len() implies coord_indices(s, zs_before)[m] != x by {
                                if coord_indices(s, zs_before)[m] == x {
                                    lemma_encode_injective_coords(s, zs_before[m]@, neighbour@);
                                }
                            }
                            let zn = coord_indices(s, zs_before.push(neighbour));
                            assert forall|m: int| 0 <= m < zn.len() implies 0 <= #[trigger] zn[m] < n_tiles by {
                                lemma_encode(s, zs_before.push(neighbour)[m]@);
                            }
                            assert forall|m1: int, m2: int| 0 <= m1 < zn.len() && 0 <= m2 < zn.len() && m1 != m2
                                implies zn[m1] != zn[m2] by {
                                if m1 < zs_before.len() {
                                    assert(zn[m1] == coord_indices(s, zs_before)[m1]);
                                } else {
                                    assert(zn[m1] == x);
                                }
                                if m2 < zs_before.len() {
                                    assert(zn[m2] == coord_indices(s, zs_before)[m2]);
                                } else {
                                    assert(zn[m2] == x);
                                }
                            }
                            lemma_distinct_bound(zn, n_tiles);
                        }
                        zeros.push(neighbour);
                        zero_queue.push_back(neighbour);
                        proof {
                            let zi = coord_indices(s, zeros@);
                            let qi = coord_indices(s, zero_queue@);
                            assert(zeros@ =~= zs_before.push(neighbour));
                            assert(zi[zs_before.len() as int] == x);
                            assert(qi[q_before.len() as int] == x);
                            assert forall|m: int| 0 <= m < zs_before.len() implies zi[m] == coord_indices(s, zs_before)[m] by {}
                            assert forall|m: int| 0 <= m < q_before.len() implies qi[m] == coord_indices(s, q_before)[m] by {}
                            assert forall|m: int| 0 <= m < zero_queue@.len() implies #[trigger] qi[m] == i0
                                || pending(zi, qi[m]) by {
                                if m < q_before.len() {
                                    if qi[m] != i0 {
                                        assert(pending(coord_indices(s, zs_before), qi[m]));
                                        let m2 = choose|m2: int| 0 <= m2 < zs_before.len() && coord_indices(s, zs_before)[m2] == qi[m];
                                        assert(zi[m2] == qi[m]);
                                    }
                                } else {
                                    assert(zi[zs_before.len() as int] == qi[m]);
                                }
                            }
                            assert forall|m: int| 0 <= m < zeros.len() implies visited.contains(#[trigger] zi[m])
                                || pending(qi, zi[m]) || zi[m] == p by {
                                if m < zs_before.len() {
                                    if pending(coord_indices(s, q_before), zi[m]) {
                                        let m2 = choose|m2: int| 0 <= m2 < q_before.len() && coord_indices(s, q_before)[m2] == zi[m];
                                        assert(qi[m2] == zi[m]);
                                    }
                                } else {
                                    assert(qi[q_before.len() as int] == zi[m]);
                                }
                            }
                            assert(visited.contains(i0) || pending(qi, i0) || p == i0) by {
                                if pending(coord_indices(s, q_before), i0) {
                                    let m2 = choose|m2: int| 0 <= m2 < q_before.len() && coord_indices(s, q_before)[m2] == i0;
                                    assert(qi[m2] == i0);
                                }
                            }
                            assert forall|zs: Set<int>| #[trigger] f.zero_closed(i0, zs) implies forall|m: int|
                                0 <= m < zeros.len() ==> zs.contains(#[trigger] zi[m]) by {
                                assert forall|m: int| 0 <= m < zeros.len() implies zs.contains(#[trigger] zi[m]) by {
                                    if m < zs_before.len() {
                                        assert(zs.contains(coord_indices(s, zs_before)[m]));
                                    } else {
                                        crate::grid::lemma_nbr_symmetric(s, p, x);
                                        if p != i0 {
                                            let m2 = choose|m2: int| 0 <= m2 < zs_before.len() && coord_indices(s, zs_before)[m2] == p;
                                            assert(zs.contains(coord_indices(s, zs_before)[m2]));
                                        }
                                        assert(nbr_set(s, p).contains(x));
                                    }
                                }
                            }
                            assert forall|a: int, n: int|
                                #![trigger visited.contains(a), nbr_set(s, a).contains(n)]
                                visited.contains(a) && nbr_set(s, a).contains(n) && f.shows_zero(n) implies pending(zi, n) by {
                                assert(pending(coord_indices(s, zs_before), n));
                                let m2 = choose|m2: int| 0 <= m2 < zs_before.len() && coord_indices(s, zs_before)[m2] == n;
                                assert(zi[m2] == n);
                            }
                            assert forall|a: int| visited.contains(a) implies a == i0 || pending(zi, a) by {
                                if a != i0 {
                                    let m2 = choose|m2: int| 0 <= m2 < zs_before.len() && coord_indices(s, zs_before)[m2] == a;
                                    assert(zi[m2] == a);
                                }
                            }
                            assert(p == i0 || pending(zi, p)) by {
                                if p != i0 {
                                    let m2 = choose|m2: int| 0 <= m2 < zs_before.len() && coord_indices(s, zs_before)[m2] == p;
                                    assert(zi[m2] == p);
                                }
                            }
                            assert forall|m: int|
                                0 <= m < k + 1 && f.shows_zero(#[trigger] idxs[m]) implies pending(zi, idxs[m]) by {
                                if m < k {
                                    let m2 = choose|m2: int| 0 <= m2 < zs_before.len() && coord_indices(s, zs_before)[m2] == idxs[m];
                                    assert(zi[m2] == idxs[m]);
                                } else {
                                    assert(zi[zs_before.len() as int] == idxs[m]);
                                }
                            }
                        }
                    },
                    _ => {},
                }
                k += 1;
            }
            proof {
                let zi = coord_indices(s, zeros@);
                let qi = coord_indices(s, zero_queue@);
                assert forall|n: int| nbr_set(s, p).contains(n) && f.shows_zero(n) implies pending(zi, n) by {
                    let m = choose|m: int| 0 <= m < neighbours.len() && #[trigger] idxs[m] == n;
                }
                visited = visited.insert(p);
            }
        }
        proof {
            let zi = coord_indices(s, zeros@);
            let zset = Set::new(|x: int| pending(zi, x));
            assert(f.zero_closed(i0, zset)) by {
                assert forall|n: int| nbr_set(s, i0).contains(n) && f.shows_zero(n) implies #[trigger] zset.contains(n) by {
                    assert(visited.contains(i0));
                }
                assert forall|a: int, n: int|
                    #![trigger zset.contains(a), nbr_set(s, a).contains(n)]
                    zset.contains(a) && nbr_set(s, a).contains(n) && f.shows_zero(n) implies zset.contains(n) by {
                    let m = choose|m: int| 0 <= m < zi.len() && zi[m] == a;
                    assert(visited.contains(zi[m]));
                }
            }
            assert forall|z: int| f.zero_reach(i0, z) == pending(zi, z) by {
                if f.zero_reach(i0, z) {
                    assert(zset.contains(z));
                }
                if pending(zi, z) {
                    let m = choose|m: int| 0 <= m < zi.len() && zi[m] == z;
                    assert forall|zs: Set<int>| #[trigger] f.zero_closed(i0, zs) implies zs.contains(z) by {
                        assert(zs.contains(zi[m]));
                    }
                }
            }
        }
        zeros
    }

    /// What the player sees at `coord` while the game runs.
    pub fn query_tile(&self, coord: Coordinate) -> (r: QueryResult)
        requires
            self@.sane(),
            self@.addressable(coord@),
        ensures
            r == self@.query(coord@),
    {
        let tile = self.index(coord);
        proof {
            assert(self@.tiles[encode(self@.size, coord@)] == tile@);
        }
        let count = tile.minecount(self.delta);

        if tile.is_debug_marked() {
            return QueryResult::DebugMarked;
        }
        if tile.is_flagged() {
            return QueryResult::Flagged;
        }
        if !tile.is_revealed() {
            return QueryResult::Hidden;
        }
        if tile.has_mine() {
            return QueryResult::Exploded;
        }
        if tile.is_blank(self.delta) {
            return QueryResult::Blank;
        }
        QueryResult::Revealed(count)
    }

    /// What the player sees at `coord` once the game is lost.
    pub fn query_tile_gameover(&self, coord: Coordinate) -> (r: QueryResult)
        requires
            self@.sane(),
            self@.addressable(coord@),
        ensures
            r == self@.query_gameover(coord@),
    {
        let tile = self.index(coord);
        proof {
            assert(self@.tiles[encode(self@.size, coord@)] == tile@);
        }
        let count = tile.minecount(self.delta);

        if tile.is_flagged() {
            return if tile.has_mine() {
                QueryResult::GoCorrect
            } else {
                QueryResult::GoIncorrect
            };
        }
        if !tile.is_revealed() {
            return if tile.has_mine() {
                QueryResult::GoMine
            } else {
                QueryResult::GoHidden(count)
            };
        }
        if tile.has_mine() {
            return QueryResult::Exploded;
        }
        if tile.is_blank(self.delta) {
            return QueryResult::Blank;
        }
        QueryResult::Revealed(count)
    }
}

/// Adding `k` to `s` adds one to the neighbours counted in `s` exactly when
/// `k` is a neighbour.
pub proof fn lemma_count_insert(n: Set<int>, s: Set<int>, k: int)
    requires
        n.finite(),
        !s.contains(k),
    ensures
        n.intersect(s.insert(k)).len() == n.intersect(s).len() + if n.contains(k) {
            1int
        } else {
            0int
        },
{
    vstd::set_lib::lemma_len_intersect(n, s);
    if n.contains(k) {
        assert(n.intersect(s.insert(k)) =~= n.intersect(s).insert(k));
    } else {
        assert(n.intersect(s.insert(k)) =~= n.intersect(s));
    }
}

/// Taking `k` out of `s` takes one from the neighbours counted in `s` exactly
/// when `k` is a neighbour.
pub proof fn lemma_count_remove(n: Set<int>, s: Set<int>, k: int)
    requires
        n.finite(),
        s.contains(k),
    ensures
        n.intersect(s.remove(k)).len() == n.intersect(s).len() - if n.contains(k) {
            1int
        } else {
            0int
        },
{
    vstd::set_lib::lemma_len_intersect(n, s);
    if n.contains(k) {
        assert(n.intersect(s.remove(k)) =~= n.intersect(s).remove(k));
    } else {
        assert(n.intersect(s.remove(k)) =~= n.intersect(s));
    }
}

/// The neighbour ranges of a tile on a field of this shape fit in `usize`.
pub(crate) proof fn lemma_ranges_fit(f: FieldView, c: Quad)
    requires
        f.shape_ok(),
        in_bounds(f.size, c),
    ensures
        ranges_fit(f.size, c, 1),
        f.addressable(c),
        0 <= encode(f.size, c) < f.tiles.len(),
{
    let s = f.size;
    assert(s.0 <= volume(s) && s.1 <= volume(s) && s.2 <= volume(s) && s.3 <= volume(s))
        by (nonlinear_arith)
        requires
            positive(s),
    ;
    lemma_encode(s, c);
}

/// The sets of mined, flagged and hidden positions are finite and within the field.
pub(crate) proof fn lemma_sets_finite(f: FieldView)
    ensures
        f.mines().finite(),
        f.flags().finite(),
        f.hidden().finite(),
        f.mines().len() <= f.tiles.len(),
        f.flags().len() <= f.tiles.len(),
        f.hidden().len() <= f.tiles.len(),
{
    let r = vstd::set_lib::set_int_range(0, f.tiles.len() as int);
    vstd::set_lib::lemma_int_range(0, f.tiles.len() as int);
    assert(f.mines().subset_of(r));
    assert(f.flags().subset_of(r));
    assert(f.hidden().subset_of(r));
    vstd::set_lib::lemma_len_subset(f.mines(), r);
    vstd::set_lib::lemma_len_subset(f.flags(), r);
    vstd::set_lib::lemma_len_subset(f.hidden(), r);
}

/// Within a finite `n`, equal counts of a set and of a superset mean the
/// same members.
pub proof fn lemma_equal_counts(n: Set<int>, a: Set<int>, b: Set<int>)
    requires
        n.finite(),
        a.subset_of(b),
        n.intersect(a).len() == n.intersect(b).len(),
    ensures
        n.intersect(a) == n.intersect(b),
{
    vstd::set_lib::lemma_len_intersect(n, a);
    vstd::set_lib::lemma_len_intersect(n, b);
    vstd::set_lib::lemma_subset_equality(n.intersect(a), n.intersect(b));
}

/// Around a tile that shows zero, every unflagged neighbour is free of
/// mines, when every flag stands on a mine or the count shown is the full
/// count of mines.
pub proof fn lemma_zero_is_safe(f: FieldView, j: int, x: int)
    requires
        f.wf(),
        0 <= j < f.tiles.len(),
        f.flags_correct() || !f.delta,
        f.tiles[j].shown_count(f.delta) == 0,
        nbr_set(f.size, j).contains(x),
        !f.tiles[x].flagged,
    ensures
        !f.tiles[x].has_mine,
{
    assert(f.tile_ok(j));
    lemma_nbr_set_size(f.size, j);
    let n = nbr_set(f.size, j);
    if f.delta {
        lemma_equal_counts(n, f.flags(), f.mines());
        assert(!n.intersect(f.flags()).contains(x));
    } else {
        vstd::set_lib::lemma_len_intersect(n, f.mines());
        assert(n.intersect(f.mines()).len() == 0);
        if f.tiles[x].has_mine {
            assert(n.intersect(f.mines()).contains(x));
        }
    }
}

/// Is `c` among the coordinates of `stack`?
pub(crate) fn stack_contains(stack: &Vec<Coordinate>, c: Coordinate) -> (r: bool)
    ensures
        r == exists|m: int| 0 <= m < stack.len() && #[trigger] stack@[m]@ == c@,
{
    let mut m: usize = 0;
    while m < stack.len()
        invariant
            m <= stack.len(),
            forall|m2: int| 0 <= m2 < m ==> #[trigger] stack@[m2]@ != c@,
        decreases stack.len() - m,
    {
        proof {
            coordinate::lemma_view_eq(stack@[m as int], c);
        }
        if stack[m] == c {
            return true;
        }
        m += 1;
    }
    false
}

/// Distinct coordinates on the field have distinct positions.
pub(crate) proof fn lemma_encode_injective_coords(s: Quad, a: Quad, b: Quad)
    requires
        positive(s),
        in_bounds(s, a),
        in_bounds(s, b),
        a != b,
    ensures
        encode(s, a) != encode(s, b),
{
    crate::grid::lemma_encode_injective(s, a, b);
}

/// Some position of `st` holds `n`.
pub open spec fn pending(st: Seq<int>, n: int) -> bool {
    exists|m: int| 0 <= m < st.len() && st[m] == n
}

/// `f` with the hidden tile at position `j` revealed, before its neighbours
/// learn of it: what a reveal leaves when the tile holds a mine.
pub open spec fn with_revealed(f: FieldView, j: int) -> FieldView {
    FieldView {
        tiles: f.tiles.update(j, TileView { revealed: true, flagged: false, ..f.tiles[j] }),
        unrevealed_tiles: f.unrevealed_tiles - 1,
        ..f
    }
}

/// Every tile of `a` has the marks and the mine and flag counts of the same tile of `b`.
spec fn same_marks_counts(a: FieldView, b: FieldView) -> bool {
    forall|x: int|
        0 <= x < b.tiles.len() ==> #[trigger] marks(a.tiles[x]) == marks(b.tiles[x])
            && a.tiles[x].true_minecount == b.tiles[x].true_minecount
            && a.tiles[x].flagged_neighbours == b.tiles[x].flagged_neighbours
}

spec fn old_revealed_is(r: int, a: int, b: int) -> bool {
    &&& b == a + 1
    &&& a >= 0
    &&& r == if a % 65536 + 1 > 65535 {
        a % 65536 + 1 - 65536
    } else {
        a % 65536 + 1
    }
}

/// The stack of tiles waiting to be revealed: on the field, distinct, each
/// still revealable, none revealed yet by this cascade, and (when the
/// cascade is known to be safe) none holding a mine.
spec fn stack_ok(f0: FieldView, stack: Seq<Coordinate>, done: Set<int>, safe: bool) -> bool {
    let st = coord_indices(f0.size, stack);
    &&& forall|m: int| 0 <= m < stack.len() ==> in_bounds(f0.size, #[trigger] stack[m]@)
    &&& forall|m: int|
        0 <= m < stack.len() ==> f0.eligible(#[trigger] st[m]) && !done.contains(st[m]) && (safe
            ==> !f0.tiles[st[m]].has_mine)
    &&& forall|m1: int, m2: int| 0 <= m1 < stack.len() && 0 <= m2 < stack.len() && m1 != m2 ==> st[m1] != st[m2]
}

/// Every revealable neighbour of a tile of `src` that spreads is in `cov` or
/// waiting on the stack.
spec fn progress_ok(f0: FieldView, st: Seq<int>, src: Set<int>, cov: Set<int>) -> bool {
    forall|t: int, n: int|
        #![trigger src.contains(t), nbr_set(f0.size, t).contains(n)]
        src.contains(t) && f0.spreads(t) && nbr_set(f0.size, t).contains(n) && f0.eligible(n)
            ==> cov.contains(n) || pending(st, n)
}

/// Whatever the cascade has revealed or stacked lies in every set closed
/// under spreading from the start.
spec fn minimal_ok(f0: FieldView, i0: int, st: Seq<int>, done: Set<int>) -> bool {
    forall|t: Set<int>|
        #[trigger] f0.closed_from(i0, t) ==> done.subset_of(t) && forall|m: int|
            0 <= m < st.len() ==> t.contains(#[trigger] st[m])
}

/// The field differs from `f0` only by the tiles in `done` being revealed.
spec fn state_ok(f0: FieldView, cur: FieldView, done: Set<int>) -> bool {
    &&& f0.only_reveals(cur)
    &&& cur.started == f0.started
    &&& forall|x: int|
        0 <= x < f0.tiles.len() ==> (#[trigger] cur.tiles[x]).revealed == (f0.tiles[x].revealed
            || done.contains(x)) && cur.tiles[x].true_minecount == f0.tiles[x].true_minecount
            && cur.tiles[x].flagged_neighbours == f0.tiles[x].flagged_neighbours
}

/// The player sees `Revealed(0)` exactly at the tiles that show zero.
proof fn lemma_query_zero(f: FieldView, c: Quad)
    requires
        f.sane(),
        in_bounds(f.size, c),
    ensures
        (f.query(c) == QueryResult::Revealed(0)) == f.shows_zero(encode(f.size, c)),
{
    lemma_encode(f.size, c);
    let j = encode(f.size, c);
    assert(0 <= f.tiles[j].true_minecount <= 80 && 0 <= f.tiles[j].flagged_neighbours <= 80);
}

/// Distinct positions below `n` number at most `n`.
pub(crate) proof fn lemma_distinct_bound(st: Seq<int>, n: int)
    requires
        forall|m: int| 0 <= m < st.len() ==> 0 <= #[trigger] st[m] < n,
        forall|m1: int, m2: int| 0 <= m1 < st.len() && 0 <= m2 < st.len() && m1 != m2 ==> st[m1] != st[m2],
        n >= 0,
    ensures
        st.len() <= n,
{
    assert(st.no_duplicates());
    st.unique_seq_to_set();
    let r = vstd::set_lib::set_int_range(0, n);
    vstd::set_lib::lemma_int_range(0, n);
    assert(st.to_set().subset_of(r));
    vstd::set_lib::lemma_len_subset(st.to_set(), r);
}

/// Revealing in two steps reveals what either step revealed.
proof fn lemma_only_reveals_trans(a: FieldView, b: FieldView, c: FieldView)
    requires
        a.only_reveals(b),
        b.only_reveals(c),
    ensures
        a.only_reveals(c),
        a.revealed_since(c) == a.revealed_since(b).union(b.revealed_since(c)),
        forall|n: int| a.eligible(n) && !b.tiles[n].revealed ==> b.eligible(n),
        forall|n: int| b.eligible(n) ==> a.eligible(n),
        forall|n: int| 0 <= n < a.tiles.len() ==> a.spreads(n) == b.spreads(n) || !b.wf() || !a.wf(),
{
    assert forall|j: int| 0 <= j < a.tiles.len() implies (#[trigger] c.tiles[j]).has_mine
        == a.tiles[j].has_mine && c.tiles[j].flagged == a.tiles[j].flagged
        && c.tiles[j].debug_marked == a.tiles[j].debug_marked && (a.tiles[j].revealed
        ==> c.tiles[j].revealed) by {
        assert(b.tiles[j].has_mine == a.tiles[j].has_mine);
    }
    assert(a.revealed_since(c) =~= a.revealed_since(b).union(b.revealed_since(c))) by {
        assert forall|j: int| 0 <= j < a.tiles.len() implies c.tiles[j].revealed == c.tiles[j].revealed by {
            assert(b.tiles[j].has_mine == a.tiles[j].has_mine);
        }
    }
    assert forall|n: int| 0 <= n < a.tiles.len() implies a.spreads(n) == b.spreads(n) || !b.wf() || !a.wf() by {
        if a.wf() && b.wf() {
            lemma_wf_same_counts(a, b, n);
        }
    }
}

/// Two well-formed fields with the same mines and flags agree on every
/// tile's mine and flag counts.
proof fn lemma_wf_same_counts(a: FieldView, b: FieldView, n: int)
    requires
        a.wf(),
        b.wf(),
        a.only_reveals(b),
        0 <= n < a.tiles.len(),
    ensures
        a.tiles[n].true_minecount == b.tiles[n].true_minecount,
        a.tiles[n].flagged_neighbours == b.tiles[n].flagged_neighbours,
        a.spreads(n) == b.spreads(n),
{
    assert(a.mines() =~= b.mines()) by {
        assert forall|j: int| 0 <= j < a.tiles.len() implies a.tiles[j].has_mine == b.tiles[j].has_mine by {
            assert(b.tiles[j].has_mine == a.tiles[j].has_mine);
        }
    }
    assert(a.flags() =~= b.flags()) by {
        assert forall|j: int| 0 <= j < a.tiles.len() implies a.tiles[j].flagged == b.tiles[j].flagged by {
            assert(b.tiles[j].has_mine == a.tiles[j].has_mine);
        }
    }
    assert(a.tile_ok(n));
    assert(b.tile_ok(n));
    assert(b.tiles[n].has_mine == a.tiles[n].has_mine);
}

/// The hypothesis under which revealing around the zeros `zi` of `f` stays
/// inside `t`: `t` holds every revealable neighbour of a zero and is closed
/// under spreading.
pub open spec fn around_hyp(f: FieldView, zi: Seq<int>, t: Set<int>) -> bool {
    &&& forall|m: int, n: int|
        #![trigger zi[m], nbr_set(f.size, zi[m]).contains(n)]
        0 <= m < zi.len() && nbr_set(f.size, zi[m]).contains(n) && f.eligible(n) ==> t.contains(n)
    &&& f.spread_closed(t)
}

/// What a successful reveal at position `i0` leaves: a well-formed, started
/// field in which `i0` and its cascade are revealed and, with `delta` on,
/// the tiles around the reachable zeros too.
pub open spec fn reveal_done(old: FieldView, i0: int, fin: FieldView) -> bool {
    &&& fin.wf()
    &&& fin.started
    &&& fin.tiles[i0].revealed
    &&& old.only_reveals(fin)
    &&& !old.delta ==> cascade(old, i0, fin)
    &&& old.delta ==> exists|mid: FieldView| cascade(old, i0, mid) && zeros_cleared(old, mid, i0, fin)
}

/// `mid` is `old` after the cascade from position `i0`: exactly the least
/// set closed under spreading that holds `i0` has been revealed.
pub open spec fn cascade(old: FieldView, i0: int, mid: FieldView) -> bool {
    &&& old.only_reveals(mid)
    &&& mid.wf()
    &&& old.closed_from(i0, old.revealed_since(mid))
    &&& forall|t: Set<int>| old.closed_from(i0, t) ==> old.revealed_since(mid).subset_of(t)
}

/// The tile at position `n` is a neighbour, revealable in `mid`, of a tile
/// that `mid` shows as zero and that is reachable from `i0` through such tiles.
pub open spec fn beside_zero(mid: FieldView, i0: int, n: int) -> bool {
    exists|z: int|
        0 <= z < mid.tiles.len() && #[trigger] mid.zero_reach(i0, z) && nbr_set(mid.size, z).contains(
            n,
        ) && mid.eligible(n)
}

/// After the cascade `mid`, `fin` has revealed exactly the least set that
/// holds what the cascade revealed and every tile beside the zero region,
/// closed under spreading.
pub open spec fn zeros_cleared(old: FieldView, mid: FieldView, i0: int, fin: FieldView) -> bool {
    &&& old.spread_closed(old.revealed_since(fin))
    &&& forall|n: int| #[trigger] beside_zero(mid, i0, n) ==> fin.tiles[n].revealed
    &&& forall|t: Set<int>|
        old.revealed_since(mid).subset_of(t) && (forall|n: int| #[trigger] beside_zero(mid, i0, n) ==> t.contains(n))
            && old.spread_closed(t) ==> old.revealed_since(fin).subset_of(t)
}

/// A reveal that uncovers no mine leaves every mine hidden that was.
proof fn lemma_keeps_mines_hidden(a: FieldView, b: FieldView)
    requires
        a.mines_hidden(),
        a.only_reveals(b),
        forall|j: int| #[trigger] a.revealed_since(b).contains(j) ==> !b.tiles[j].has_mine,
    ensures
        b.mines_hidden(),
{
    assert forall|j: int| 0 <= j < b.tiles.len() && #[trigger] b.tiles[j].has_mine implies !b.tiles[j].revealed by {
        assert(b.tiles[j].has_mine == a.tiles[j].has_mine);
        if b.tiles[j].revealed {
            assert(a.revealed_since(b).contains(j));
        }
    }
}

/// What a reveal at position `i0` that ends in an explosion may have
/// revealed: no more than the cascade from `i0`, or, once that cascade
/// `mid` is done, no more than it together with the tiles beside the zero
/// region and what spreads from them.
pub open spec fn reveal_bounded(old: FieldView, i0: int, fin: FieldView) -> bool {
    ||| forall|t: Set<int>| old.closed_from(i0, t) ==> old.revealed_since(fin).subset_of(t)
    ||| exists|mid: FieldView|
        #[trigger] cascade(old, i0, mid) && forall|t: Set<int>|
            old.revealed_since(mid).subset_of(t) && (forall|n: int| #[trigger] beside_zero(mid, i0, n) ==> t.contains(n))
                && old.spread_closed(t) ==> old.revealed_since(fin).subset_of(t)
}

/// `3` to the power `n`, for `n` from 0 to 4.
pub open spec fn pow3(n: int) -> int
    decreases n,
{
    if n <= 0 {
        1
    } else {
        3 * pow3(n - 1)
    }
}

/// The axis visited in step `k` of a walk over the four ordinates.
pub open spec fn ordinate_at(k: int) -> Ordinate {
    if k == 0 {
        Ordinate::X
    } else if k == 1 {
        Ordinate::Y
    } else if k == 2 {
        Ordinate::Z
    } else {
        Ordinate::W
    }
}

/// The product of the spans of radius 1 along the first `k` axes.
pub open spec fn spans_prefix(s: Quad, c: Quad, k: int) -> int
    decreases k,
{
    if k <= 0 {
        1
    } else {
        spans_prefix(s, c, k - 1) * span(ordinate_at(k - 1).of(c), 1, ordinate_at(k - 1).of(s))
    }
}

proof fn lemma_pow3_step(n: int, p: int)
    requires
        0 <= n <= 3,
    ensures
        pow3(n + 1) * p == 3 * (pow3(n) * p),
{
    assert(pow3(n + 1) == 3 * pow3(n));
    assert(3 * pow3(n) * p == 3 * (pow3(n) * p)) by (nonlinear_arith);
}

proof fn lemma_pow3_mul(a: int, b: int)
    requires
        a >= 0,
        b >= 0,
    ensures
        pow3(a) * pow3(b) == pow3(a + b),
        pow3(a) >= 1,
    decreases a,
{
    if a > 0 {
        lemma_pow3_mul(a - 1, b);
        assert(3 * pow3(a - 1) * pow3(b) == 3 * (pow3(a - 1) * pow3(b))) by (nonlinear_arith);
    }
}

proof fn lemma_spans_prefix_bounds(s: Quad, c: Quad, k: int)
    requires
        positive(s),
        in_bounds(s, c),
        0 <= k <= 4,
    ensures
        1 <= spans_prefix(s, c, k) <= pow3(k),
    decreases k,
{
    if k > 0 {
        lemma_spans_prefix_bounds(s, c, k - 1);
        let a = spans_prefix(s, c, k - 1);
        let b = span(ordinate_at(k - 1).of(c), 1, ordinate_at(k - 1).of(s));
        assert(1 <= b <= 3);
        assert(1 <= a * b <= pow3(k - 1) * 3) by (nonlinear_arith)
            requires
                1 <= a <= pow3(k - 1),
                1 <= b <= 3,
        ;
    }
}

proof fn lemma_spans_prefix_full(s: Quad, c: Quad)
    ensures
        spans_prefix(s, c, 4) == box_count(s, c, 1),
{
    reveal_with_fuel(spans_prefix, 5);
}

} // verus!
