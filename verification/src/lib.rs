//! A minesweeper game played on a four-dimensional grid, with verified
//! bookkeeping of mines, flags and hidden tiles.
pub mod colors;
pub mod game;
pub mod grid;
pub mod icons;
pub mod minesweeper;
pub mod session;
pub mod random;

use vstd::prelude::*;
use crate::grid::{positive, volume, Quad};
use crate::minesweeper::coordinate::{coordinate, Coordinate};
use crate::minesweeper::{fresh, Minefield};

verus! {

/// The size of a field and the number of mines to lay on it.
pub struct FieldSettings {
    size: Coordinate,
    mine_count: u16,
}

impl View for FieldSettings {
    type V = (Quad, int);

    closed spec fn view(&self) -> (Quad, int) {
        (self.size@, self.mine_count as int)
    }
}

/// Settings that a field can be made from: at most one tile in four holds a mine.
pub open spec fn settings_ok(v: (Quad, int)) -> bool {
    0 <= v.1 && 4 * v.1 <= volume(v.0)
}

impl FieldSettings {
    /// Refuses more mines than a quarter of the tiles.
    pub fn new(size: Coordinate, mine_count: u16) -> (r: Result<Self, String>)
        requires
            size@.0 * size@.1 <= usize::MAX,
            size@.0 * size@.1 * size@.3 <= usize::MAX,
            size@.0 * size@.1 * size@.3 * size@.2 <= usize::MAX,
        ensures
            match r {
                Ok(s) => s@ == (size@, mine_count as int) && settings_ok(s@),
                Err(e) => !settings_ok((size@, mine_count as int)) && e@
                    == "Too many mines for this size of grid."@,
            },
    {
        if 4 * mine_count as usize > size.multiply_out() {
            return Err("Too many mines for this size of grid.".to_owned());
        }
        Ok(FieldSettings { size, mine_count })
    }
}

/// The sizes of field offered on the main menu.
pub enum Preset {
    Small2D,
    Medium2D,
    Large2D,
    Small4D,
    Medium4D,
    Large4D,
}

impl Preset {
    /// The size of field of this preset.
    pub open spec fn size(self) -> Quad {
        match self {
            Preset::Small2D => (8, 8, 1, 1),
            Preset::Medium2D => (16, 16, 1, 1),
            Preset::Large2D => (32, 32, 1, 1),
            Preset::Small4D => (4, 4, 4, 4),
            Preset::Medium4D => (6, 6, 6, 6),
            Preset::Large4D => (10, 10, 10, 10),
        }
    }

    /// The number of mines of this preset.
    pub open spec fn mines(self) -> int {
        match self {
            Preset::Small2D => 10,
            Preset::Medium2D => 40,
            Preset::Large2D => 160,
            Preset::Small4D => 10,
            Preset::Medium4D => 40,
            Preset::Large4D => 320,
        }
    }

    /// A fresh field of the preset's size with the preset's number of mines.
    pub fn generate(&self) -> (field: Minefield)
        ensures
            field@.wf(),
            fresh(field@),
            field@.size == self.size(),
            field@.minecount == self.mines(),
            exists|d: Seq<u32>, ps: Seq<usize>|
                #[trigger] crate::minesweeper::placement::laid_by(d, volume(self.size()), ps)
                    && field@.mines() == crate::minesweeper::placement::position_set(ps),
    {
        let size = match self {
            Preset::Small2D => coordinate(8, 8, 1, 1),
            Preset::Medium2D => coordinate(16, 16, 1, 1),
            Preset::Large2D => coordinate(32, 32, 1, 1),
            Preset::Small4D => coordinate(4, 4, 4, 4),
            Preset::Medium4D => coordinate(6, 6, 6, 6),
            Preset::Large4D => coordinate(10, 10, 10, 10),
        };
        let mines: u16 = match self {
            Preset::Small2D => 10,
            Preset::Medium2D => 40,
            Preset::Large2D => 160,
            Preset::Small4D => 10,
            Preset::Medium4D => 40,
            Preset::Large4D => 320,
        };
        proof {
            assert(size@ == self.size());
            assert(mines == self.mines());
            assert(positive(size@) && volume(size@) <= 10000 && 4 * mines <= volume(size@)) by {
                match self {
                    Preset::Small2D => assert(volume((8, 8, 1, 1)) == 64) by (nonlinear_arith),
                    Preset::Medium2D => assert(volume((16, 16, 1, 1)) == 256) by (nonlinear_arith),
                    Preset::Large2D => assert(volume((32, 32, 1, 1)) == 1024) by (nonlinear_arith),
                    Preset::Small4D => assert(volume((4, 4, 4, 4)) == 256) by (nonlinear_arith),
                    Preset::Medium4D => assert(volume((6, 6, 6, 6)) == 1296) by (nonlinear_arith),
                    Preset::Large4D => assert(volume((10, 10, 10, 10)) == 10000) by (nonlinear_arith),
                }
            }
            assert(size@.0 * size@.1 <= volume(size@) && size@.0 * size@.1 * size@.3 <= volume(size@)
                && size@.0 * size@.1 * size@.3 * size@.2 == volume(size@)) by (nonlinear_arith)
                requires
                    positive(size@),
            ;
        }
        let settings = FieldSettings::new(size, mines).unwrap();
        Minefield::new(settings)
    }
}

} // verus!
