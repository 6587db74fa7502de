//! One tile of the minefield and the counters it keeps about its neighbours.
use vstd::prelude::*;

verus! {

/// What a tile holds.
pub struct TileView {
    pub has_mine: bool,
    pub flagged: bool,
    pub revealed: bool,
    /// How many neighbours hold a mine.
    pub true_minecount: int,
    /// How many neighbours carry a flag.
    pub flagged_neighbours: int,
    /// How many neighbours are not revealed yet.
    pub hidden_neighbours: int,
    pub debug_marked: bool,
}

impl TileView {
    /// The number the tile shows: with `delta`, the mines around it that are
    /// not yet accounted for by flags.
    pub open spec fn shown_count(self, delta: bool) -> int {
        if delta {
            self.true_minecount - self.flagged_neighbours
        } else {
            self.true_minecount
        }
    }

    /// A revealed tile with nothing left to discover around it.
    pub open spec fn blank(self, delta: bool) -> bool {
        self.revealed && self.hidden_neighbours == self.flagged_neighbours && self.shown_count(
            delta,
        ) == 0
    }

    /// The counters are small enough for `Tile::minecount` to compute in `i16`.
    pub open spec fn counts_fit(self) -> bool {
        self.true_minecount <= i16::MAX && self.flagged_neighbours <= i16::MAX
    }
}

#[derive(Copy, Clone)]
pub struct Tile {
    has_mine: bool,
    is_flagged: bool,
    is_revealed: bool,
    true_minecount: u16,
    flagged_neighbours: u16,
    hidden_neighbours: u16,
    debug_marked: bool,
}

impl View for Tile {
    type V = TileView;

    closed spec fn view(&self) -> TileView {
        TileView {
            has_mine: self.has_mine,
            flagged: self.is_flagged,
            revealed: self.is_revealed,
            true_minecount: self.true_minecount as int,
            flagged_neighbours: self.flagged_neighbours as int,
            hidden_neighbours: self.hidden_neighbours as int,
            debug_marked: self.debug_marked,
        }
    }
}

/// The counters of a tile fit in 16 bits.
pub proof fn lemma_tile_counts(t: Tile)
    ensures
        0 <= t@.true_minecount <= u16::MAX,
        0 <= t@.flagged_neighbours <= u16::MAX,
        0 <= t@.hidden_neighbours <= u16::MAX,
{
}

pub type TileResult = Result<(), TileError>;

#[derive(Debug)]
pub enum TileError {
    Exploded,
    AlreadyRevealed,
    Overflow(String),
    Underflow(String),
}

impl TileError {
    /// The message that describes the error.
    pub fn to_string(&self) -> (r: String)
        ensures
            r@ == match self {
                TileError::Exploded => "There was a mine there!"@,
                TileError::AlreadyRevealed => "The tile is already revealed!"@,
                TileError::Overflow(msg) => msg@,
                TileError::Underflow(msg) => msg@,
            },
    {
        match self {
            TileError::Exploded => "There was a mine there!".to_owned(),
            TileError::AlreadyRevealed => "The tile is already revealed!".to_owned(),
            TileError::Overflow(msg) => msg.clone(),
            TileError::Underflow(msg) => msg.clone(),
        }
    }
}

impl Tile {
    /// A hidden, unflagged tile that knows how many neighbours it has.
    pub fn new(has_mine: bool, neighbours: u16) -> (t: Self)
        ensures
            t@ == (TileView {
                has_mine,
                flagged: false,
                revealed: false,
                true_minecount: 0,
                flagged_neighbours: 0,
                hidden_neighbours: neighbours as int,
                debug_marked: false,
            }),
    {
        Self {
            has_mine,
            is_flagged: false,
            is_revealed: false,
            true_minecount: 0,
            flagged_neighbours: 0,
            hidden_neighbours: neighbours,
            debug_marked: false,
        }
    }

    /// Records one more mine among the neighbours.
    pub(crate) fn count_mine(&mut self)
        requires
            old(self)@.true_minecount < u16::MAX,
        ensures
            final(self)@ == (TileView {
                true_minecount: old(self)@.true_minecount + 1,
                ..old(self)@
            }),
    {
        self.true_minecount += 1
    }

    pub fn is_blank(&self, delta: bool) -> (r: bool)
        requires
            self@.counts_fit(),
        ensures
            r == self@.blank(delta),
    {
        self.is_revealed && self.hidden_neighbours == self.flagged_neighbours && self.minecount(
            delta,
        ) == 0
    }

    pub fn has_mine(&self) -> (r: bool)
        ensures
            r == self@.has_mine,
    {
        self.has_mine
    }

    pub fn true_minecount(&self) -> (r: u16)
        ensures
            r == self@.true_minecount,
    {
        self.true_minecount
    }

    /// The number the tile shows; see `TileView::shown_count`.
    pub fn minecount(&self, delta: bool) -> (r: i16)
        requires
            self@.counts_fit(),
        ensures
            r == self@.shown_count(delta),
    {
        if delta {
            self.true_minecount as i16 - self.flagged_neighbours as i16
        } else {
            self.true_minecount as i16
        }
    }

    pub fn hidden_neighbours(&self) -> (r: u16)
        ensures
            r == self@.hidden_neighbours,
    {
        self.hidden_neighbours
    }

    pub fn is_flagged(&self) -> (r: bool)
        ensures
            r == self@.flagged,
    {
        self.is_flagged
    }

    pub fn is_revealed(&self) -> (r: bool)
        ensures
            r == self@.revealed,
    {
        self.is_revealed
    }

    /// One flag fewer among the neighbours; refuses to go below zero.
    pub(crate) fn decrease_flagged_minecount(&mut self) -> (r: TileResult)
        ensures
            old(self)@.flagged_neighbours == 0 ==> final(self)@ == old(self)@ && (r matches Err(
                TileError::Underflow(msg),
            ) && msg@ == "Cannot decrease flagged minecount below 0."@),
            old(self)@.flagged_neighbours > 0 ==> r is Ok && final(self)@ == (TileView {
                flagged_neighbours: old(self)@.flagged_neighbours - 1,
                ..old(self)@
            }),
    {
        if self.flagged_neighbours == 0 {
            return Err(TileError::Underflow("Cannot decrease flagged minecount below 0.".to_owned()));
        }
        self.flagged_neighbours -= 1;
        Ok(())
    }

    /// One flag more among the neighbours.
    pub(crate) fn increase_flagged_minecount(&mut self) -> (r: TileResult)
        requires
            old(self)@.flagged_neighbours < u16::MAX,
        ensures
            r is Ok,
            final(self)@ == (TileView {
                flagged_neighbours: old(self)@.flagged_neighbours + 1,
                ..old(self)@
            }),
    {
        self.flagged_neighbours += 1;
        Ok(())
    }

    /// One hidden neighbour fewer; refuses to go below zero.
    pub(crate) fn decrease_hidden_neighbours(&mut self) -> (r: TileResult)
        ensures
            old(self)@.hidden_neighbours == 0 ==> final(self)@ == old(self)@ && (r matches Err(
                TileError::Underflow(msg),
            ) && msg@ == "Cannot decrease hidden neighbours below 0."@),
            old(self)@.hidden_neighbours > 0 ==> r is Ok && final(self)@ == (TileView {
                hidden_neighbours: old(self)@.hidden_neighbours - 1,
                ..old(self)@
            }),
    {
        if self.hidden_neighbours == 0 {
            return Err(TileError::Underflow("Cannot decrease hidden neighbours below 0.".to_owned()));
        }
        self.hidden_neighbours -= 1;
        Ok(())
    }

    /// Puts a flag on a hidden tile or takes it off; a revealed tile never
    /// carries a flag.
    pub(crate) fn toggle_flagged(&mut self)
        ensures
            final(self)@ == (TileView {
                flagged: !(old(self)@.flagged || old(self)@.revealed),
                ..old(self)@
            }),
    {
        self.is_flagged = !(self.is_flagged || self.is_revealed);
    }

    /// Reveals the tile (dropping any flag); fails if it was revealed
    /// already, and reports an explosion when it holds a mine.
    pub(crate) fn uncover(&mut self) -> (r: TileResult)
        ensures
            old(self)@.revealed ==> final(self)@ == old(self)@ && r matches Err(
                TileError::AlreadyRevealed,
            ),
            !old(self)@.revealed ==> final(self)@ == (TileView {
                revealed: true,
                flagged: false,
                ..old(self)@
            }) && (if old(self)@.has_mine {
                r matches Err(TileError::Exploded)
            } else {
                r is Ok
            }),
    {
        if self.is_revealed {
            return Err(TileError::AlreadyRevealed);
        }
        self.is_revealed = true;
        self.is_flagged = false;
        if self.has_mine {
            Err(TileError::Exploded)
        } else {
            Ok(())
        }
    }

    /// Marks the tile for debugging, or clears the mark.
    pub fn toggle_debug_mark(&mut self)
        ensures
            final(self)@ == (TileView { debug_marked: !old(self)@.debug_marked, ..old(self)@ }),
    {
        self.debug_marked = !self.debug_marked;
    }

    pub fn is_debug_marked(&self) -> (r: bool)
        ensures
            r == self@.debug_marked,
    {
        self.debug_marked
    }
}

} // verus!
