//! What the game window decides between frames: which screen shows, which
//! field is played, what a click on a tile does, and the tools of the
//! developer panel. Drawing and reading the mouse are left to the window;
//! it hands each event to these functions and draws what they leave.
use vstd::prelude::*;
use crate::grid::{encode, in_bounds, volume, Quad};
use crate::minesweeper::coordinate::Coordinate;
use crate::minesweeper::neighbours::lists_box;
use crate::minesweeper::{
    lemma_ranges_fit, reveal_done, start_run, startable, stack_contains, with_revealed, FieldView, Minefield,
    QueryResult,
};

verus! {

/// The screen the window shows.
#[derive(Copy, Clone, Debug, PartialEq, Eq, Structural)]
pub enum AppPhase {
    MainMenu,
    SizeMenu,
    GameRunning,
    GameLost,
    GameWon,
}

impl Default for AppPhase {
    fn default() -> (r: Self)
        ensures
            r == AppPhase::MainMenu,
    {
        AppPhase::MainMenu
    }
}

/// A tool that changes what a click on a tile does.
#[derive(Copy, Clone, Debug, PartialEq, Eq, Structural)]
pub enum MouseTool {
    /// Developer mode: a click selects the tile to inspect.
    DevTileInspect,
}

/// Everything the window's state holds, as mathematical values.
pub struct AppView {
    pub field: Option<FieldView>,
    pub current_phase: AppPhase,
    pub next_phase: Option<AppPhase>,
    pub hovered_tile: Option<Quad>,
    pub highlighted_tiles: Seq<Coordinate>,
    pub mouse_tool: Option<MouseTool>,
    pub dev_mode: bool,
    pub inspected_tile: Option<Quad>,
}

impl AppView {
    /// No move may be made on the field: the screen is about to change to
    /// one other than the running game, or shows another and stays.
    pub open spec fn stopped(self) -> bool {
        &&& self.next_phase != Some(AppPhase::GameRunning)
        &&& (self.next_phase is Some || self.current_phase != AppPhase::GameRunning)
    }

    /// The state's invariant: a field is always fit to be shown, and fit to
    /// be played unless play has stopped (as it does when a mine goes off);
    /// a hovered tile lies where its neighbours can be listed.
    pub open spec fn wf(self) -> bool {
        &&& match self.field {
            Some(f) => f.sane() && (f.wf() || self.stopped()),
            None => true,
        }
        &&& match self.hovered_tile {
            Some(c) => c.0 + 2 <= usize::MAX && c.1 + 2 <= usize::MAX && c.2 + 2 <= usize::MAX
                && c.3 + 2 <= usize::MAX,
            None => true,
        }
    }

    /// What the events of one frame on the tile at `c` do to the field and
    /// to the pending change of screen, when no tool is picked. Moves are
    /// made only in a running game that has not stopped: a primary click
    /// reveals a hidden tile (a mine going off loses the game), a secondary
    /// click without a primary one flags a hidden tile, and a secondary click
    /// takes a flag off.
    pub open spec fn clicked(self, c: Quad, primary: bool, secondary: bool, after: AppView) -> bool {
        let f0 = self.field.unwrap();
        let f1 = after.field.unwrap();
        let playing = self.current_phase == AppPhase::GameRunning && !self.stopped();
        &&& after.field is Some
        &&& if playing && f0.query(c) == QueryResult::Hidden && primary {
            revealed_by_click(f0, c, f1, self.next_phase, after.next_phase)
        } else if playing && f0.query(c) == QueryResult::Hidden && secondary {
            f0.flag_toggled(c, f1, true) && after.next_phase == self.next_phase
        } else if playing && f0.query(c) == QueryResult::Flagged && secondary {
            f0.flag_toggled(c, f1, false) && after.next_phase == self.next_phase
        } else {
            f1 == f0 && after.next_phase == self.next_phase
        }
    }

    /// The screen shown once a pending change has been made.
    pub open spec fn settled_phase(self) -> AppPhase {
        match self.next_phase {
            Some(p) => p,
            None => self.current_phase,
        }
    }

    /// The screen for the frame that starts from `self`: the pending change,
    /// then a running game that is won becomes a won game.
    pub open spec fn frame_phase(self) -> AppPhase {
        let p = self.settled_phase();
        if p == AppPhase::GameRunning && self.field.unwrap().minecount
            == self.field.unwrap().unrevealed_tiles {
            AppPhase::GameWon
        } else {
            p
        }
    }
}

/// Once play has stopped, no click changes the field or the pending change
/// of screen.
pub proof fn law_no_moves_once_stopped(
    s: AppView,
    c: Quad,
    primary: bool,
    secondary: bool,
    after: AppView,
)
    requires
        s.field is Some,
        s.stopped(),
        s.clicked(c, primary, secondary, after),
    ensures
        after.field == s.field,
        after.next_phase == s.next_phase,
{
}

/// A stopped game, such as one whose mine went off, does not come back to
/// the running screen at the next frame.
pub proof fn law_stopped_game_stays_stopped(s: AppView)
    requires
        s.stopped(),
    ensures
        s.frame_phase() != AppPhase::GameRunning,
{
}

/// Every axis of a field fit to be shown is shorter than its volume.
proof fn lemma_axes_fit(f: FieldView)
    requires
        f.shape_ok(),
    ensures
        f.size.0 + 2 <= usize::MAX,
        f.size.1 + 2 <= usize::MAX,
        f.size.2 + 2 <= usize::MAX,
        f.size.3 + 2 <= usize::MAX,
{
    let s = f.size;
    assert(s.0 <= volume(s) && s.1 <= volume(s) && s.2 <= volume(s) && s.3 <= volume(s))
        by (nonlinear_arith)
        requires
            crate::grid::positive(s),
    ;
}

/// What a primary click on the hidden tile at `c` of `f0` leaves: the
/// field `f1` after the reveal, and the pending change of screen, which
/// turns to the lost game exactly when the reveal ends in an explosion (as
/// it does at once when `c` holds a mine).
pub open spec fn revealed_by_click(
    f0: FieldView,
    c: Quad,
    f1: FieldView,
    next_before: Option<AppPhase>,
    next_after: Option<AppPhase>,
) -> bool {
    &&& f0.only_reveals(f1)
    &&& (f0.flags_correct() || !f0.delta) && !f0.tile(c).has_mine ==> next_after == next_before
    &&& f0.tile(c).has_mine ==> next_after == Some(AppPhase::GameLost) && f1 == with_revealed(
        f0,
        encode(f0.size, c),
    )
    &&& (next_after == next_before && reveal_done(f0, encode(f0.size, c), f1) && forall|j: int|
        #[trigger] f0.revealed_since(f1).contains(j) ==> !f1.tiles[j].has_mine) || (next_after
        == Some(AppPhase::GameLost) && f1.sane() && exists|j: int|
        0 <= j < f1.tiles.len() && f1.tiles[j].has_mine && f1.tiles[j].revealed)
}

/// The state of the game window, without its drawing settings.
pub struct AppState {
    minefield: Option<Minefield>,
    current_phase: AppPhase,
    next_phase: Option<AppPhase>,
    hovered_tile: Option<Coordinate>,
    highlighted_tiles: Vec<Coordinate>,
    mouse_tool: Option<MouseTool>,
    dev_mode: bool,
    inspected_tile: Option<Coordinate>,
}

impl View for AppState {
    type V = AppView;

    closed spec fn view(&self) -> AppView {
        AppView {
            field: match self.minefield {
                Some(f) => Some(f@),
                None => None,
            },
            current_phase: self.current_phase,
            next_phase: self.next_phase,
            hovered_tile: match self.hovered_tile {
                Some(c) => Some(c@),
                None => None,
            },
            highlighted_tiles: self.highlighted_tiles@,
            mouse_tool: self.mouse_tool,
            dev_mode: self.dev_mode,
            inspected_tile: match self.inspected_tile {
                Some(c) => Some(c@),
                None => None,
            },
        }
    }
}

impl AppState {
    /// The state of a window that has just opened on the main menu.
    pub fn new() -> (s: Self)
        ensures
            s@.wf(),
            s@ == (AppView {
                field: None,
                current_phase: AppPhase::MainMenu,
                next_phase: None,
                hovered_tile: None,
                highlighted_tiles: Seq::empty(),
                mouse_tool: None,
                dev_mode: false,
                inspected_tile: None,
            }),
    {
        let s = AppState {
            minefield: None,
            current_phase: AppPhase::default(),
            next_phase: None,
            hovered_tile: None,
            highlighted_tiles: Vec::new(),
            mouse_tool: None,
            dev_mode: false,
            inspected_tile: None,
        };
        proof {
            assert(s@.highlighted_tiles =~= Seq::empty());
        }
        s
    }

    /// Puts a field in play; the game starts with the next frame.
    pub fn set_minefield(&mut self, minefield: Minefield)
        requires
            old(self)@.wf(),
            minefield@.wf(),
        ensures
            final(self)@.wf(),
            final(self)@ == (AppView {
                field: Some(minefield@),
                next_phase: Some(AppPhase::GameRunning),
                ..old(self)@
            }),
    {
        proof {
            crate::minesweeper::lemma_wf_sane(minefield@);
        }
        self.minefield = Some(minefield);
        self.next_phase = Some(AppPhase::GameRunning);
    }

    /// Drops the field; the main menu shows with the next frame.
    pub fn clear_minefield(&mut self)
        requires
            old(self)@.wf(),
        ensures
            final(self)@.wf(),
            final(self)@ == (AppView {
                field: None,
                next_phase: Some(AppPhase::MainMenu),
                ..old(self)@
            }),
    {
        self.minefield = None;
        self.next_phase = Some(AppPhase::MainMenu);
    }

    /// Starts a game on a field ready for it (a fresh one is): reveals a
    /// first tile free of mines around, drawn as `Minefield::quickstart`
    /// draws, then puts the field in play. Fails, leaving the state as it
    /// was, when no such tile turns up; a field without mines always starts.
    pub fn start_game(&mut self, minefield: Minefield) -> (r: Result<(), String>)
        requires
            old(self)@.wf(),
            startable(minefield@),
        ensures
            final(self)@.wf(),
            minefield@.minecount == 0 ==> r is Ok,
            match r {
                Ok(()) => {
                    &&& final(self)@ == (AppView {
                        field: final(self)@.field,
                        next_phase: Some(AppPhase::GameRunning),
                        ..old(self)@
                    })
                    &&& final(self)@.field matches Some(f) && exists|d: Seq<u32>|
                        #[trigger] start_run(minefield@, d, f, true)
                },
                Err(e) => {
                    &&& final(self)@ == old(self)@
                    &&& e@ == "Cannot find tile without adjacent mines!"@
                    &&& exists|d: Seq<u32>| #[trigger] start_run(minefield@, d, minefield@, false)
                },
            },
    {
        let mut field = minefield;
        match field.quickstart() {
            Ok(()) => {},
            Err(e) => {
                return Err(e);
            },
        }
        proof {
            let d = choose|d: Seq<u32>| #[trigger] start_run(minefield@, d, field@, true);
            assert(field@.wf());
        }
        self.set_minefield(field);
        Ok(())
    }

    /// Starts a frame: makes the pending change of screen, turns a running
    /// game that is won into a won game, and, in a running game, lights up
    /// the neighbours of the tile the mouse was over in the last frame.
    pub fn begin_frame(&mut self)
        requires
            old(self)@.wf(),
            old(self)@.settled_phase() == AppPhase::GameRunning ==> old(self)@.field is Some,
        ensures
            final(self)@.wf(),
            final(self)@.field == old(self)@.field,
            final(self)@.current_phase == old(self)@.frame_phase(),
            final(self)@.next_phase is None,
            final(self)@.mouse_tool == old(self)@.mouse_tool,
            final(self)@.dev_mode == old(self)@.dev_mode,
            final(self)@.inspected_tile == old(self)@.inspected_tile,
            old(self)@.frame_phase() != AppPhase::GameRunning ==> final(self)@.hovered_tile
                == old(self)@.hovered_tile && final(self)@.highlighted_tiles.len() == 0,
            old(self)@.frame_phase() == AppPhase::GameRunning ==> final(self)@.hovered_tile is None
                && match old(self)@.hovered_tile {
                Some(c) => lists_box(
                    final(self)@.highlighted_tiles,
                    old(self)@.field.unwrap().size,
                    c,
                    1,
                ),
                None => final(self)@.highlighted_tiles.len() == 0,
            },
    {
        match self.next_phase.take() {
            Some(next) => {
                self.current_phase = next;
            },
            None => {},
        }
        if self.current_phase == AppPhase::GameRunning {
            match &self.minefield {
                Some(field) => {
                    if field.game_won() {
                        self.current_phase = AppPhase::GameWon;
                    }
                },
                None => {},
            }
        }
        self.highlighted_tiles.clear();
        if self.current_phase == AppPhase::GameRunning {
            match self.hovered_tile.take() {
                Some(coord) => {
                    match &self.minefield {
                        Some(field) => {
                            proof {
                                lemma_axes_fit(field@);
                            }
                            self.highlighted_tiles = field.get_neighbours(coord, 1);
                        },
                        None => {},
                    }
                },
                None => {},
            }
        }
        proof {
            assert(self@.highlighted_tiles.len() == self.highlighted_tiles@.len());
        }
    }

    /// What the tile at `coord` shows on the current screen: the running
    /// game's view, or the view that uncovers the field once it is lost.
    pub fn tile_query(&self, coord: Coordinate) -> (r: QueryResult)
        requires
            self@.wf(),
            self@.field is Some,
            in_bounds(self@.field.unwrap().size, coord@),
            self@.current_phase == AppPhase::GameRunning || self@.current_phase == AppPhase::GameLost,
        ensures
            self@.current_phase == AppPhase::GameRunning ==> r == self@.field.unwrap().query(coord@),
            self@.current_phase == AppPhase::GameLost ==> r == self@.field.unwrap().query_gameover(
                coord@,
            ),
    {
        match &self.minefield {
            Some(field) => {
                proof {
                    lemma_ranges_fit(field@, coord@);
                }
                if self.current_phase == AppPhase::GameRunning {
                    field.query_tile(coord)
                } else {
                    field.query_tile_gameover(coord)
                }
            },
            None => QueryResult::Hidden,
        }
    }
    /// Acts on the events of one frame on the tile at `coord`: with the
    /// inspect tool picked a primary click selects the tile, otherwise the
    /// click plays (see `AppView::clicked`); hovering marks the tile as the
    /// one the mouse is over.
    pub fn tile_events(&mut self, coord: Coordinate, primary: bool, secondary: bool, hovered: bool)
        requires
            old(self)@.wf(),
            old(self)@.field is Some,
            in_bounds(old(self)@.field.unwrap().size, coord@),
            old(self)@.current_phase == AppPhase::GameRunning || old(self)@.current_phase
                == AppPhase::GameLost,
        ensures
            final(self)@.wf(),
            final(self)@.current_phase == old(self)@.current_phase,
            final(self)@.highlighted_tiles == old(self)@.highlighted_tiles,
            final(self)@.mouse_tool == old(self)@.mouse_tool,
            final(self)@.dev_mode == old(self)@.dev_mode,
            final(self)@.hovered_tile == if hovered {
                Some(coord@)
            } else {
                old(self)@.hovered_tile
            },
            old(self)@.mouse_tool is Some ==> final(self)@.field == old(self)@.field
                && final(self)@.next_phase == old(self)@.next_phase && final(self)@.inspected_tile
                == if primary {
                Some(coord@)
            } else {
                old(self)@.inspected_tile
            },
            old(self)@.mouse_tool is None ==> final(self)@.inspected_tile == old(self)@.inspected_tile
                && old(self)@.clicked(coord@, primary, secondary, final(self)@),
    {
        proof {
            lemma_axes_fit(self@.field.unwrap());
        }
        match self.mouse_tool {
            Some(MouseTool::DevTileInspect) => {
                if primary {
                    self.inspected_tile = Some(coord);
                }
            },
            None => {
                self.normal_tile_behavior(coord, primary, secondary);
            },
        }
        if hovered {
            self.hovered_tile = Some(coord);
        }
    }

    /// The moves of a click on the tile at `coord` when no tool is picked.
    /// A primary click takes the place of a secondary one in the same frame
    /// (flagging the tile just revealed would corrupt its neighbours'
    /// counts), and once a mine has gone off the clicks left in that frame
    /// make no move.
    fn normal_tile_behavior(&mut self, coord: Coordinate, primary: bool, secondary: bool)
        requires
            old(self)@.wf(),
            old(self)@.field is Some,
            in_bounds(old(self)@.field.unwrap().size, coord@),
        ensures
            final(self)@.wf(),
            final(self)@ == (AppView {
                field: final(self)@.field,
                next_phase: final(self)@.next_phase,
                ..old(self)@
            }),
            old(self)@.clicked(coord@, primary, secondary, final(self)@),
    {
        let playing = self.current_phase == AppPhase::GameRunning && match self.next_phase {
            None => true,
            Some(p) => p == AppPhase::GameRunning,
        };
        if !playing {
            return;
        }
        let mut field = match self.minefield.take() {
            Some(f) => f,
            None => {
                return;
            },
        };
        let ghost f0 = field@;
        proof {
            lemma_ranges_fit(f0, coord@);
            crate::grid::lemma_encode(f0.size, coord@);
            assert(f0.tile_ok(encode(f0.size, coord@)));
        }
        let query = field.query_tile(coord);
        match query {
            QueryResult::Hidden => {
                if primary {
                    match field.reveal_tile(coord) {
                        Ok(()) => {},
                        Err(_) => {
                            self.next_phase = Some(AppPhase::GameLost);
                        },
                    }
                    proof {
                        let f1 = field@;
                        let i = encode(f0.size, coord@);
                        if f1.wf() {
                            crate::minesweeper::lemma_wf_sane(f1);
                        }
                        assert(f1.sane());
                        assert(f0.only_reveals(f1));
                        assert(revealed_by_click(f0, coord@, f1, old(self).next_phase, self.next_phase));
                    }
                } else if secondary {
                    field.toggle_flagged(coord);
                }
            },
            QueryResult::Flagged => {
                if secondary {
                    field.toggle_flagged(coord);
                }
            },
            _ => {},
        }
        proof {
            crate::minesweeper::lemma_wf_sane(f0);
            if field@.wf() {
                crate::minesweeper::lemma_wf_sane(field@);
            }
        }
        self.minefield = Some(field);
    }

    /// Asks for another screen than the running game with the next frame
    /// (the running game only starts through a new field).
    pub fn request_phase(&mut self, phase: AppPhase)
        requires
            old(self)@.wf(),
            phase != AppPhase::GameRunning,
        ensures
            final(self)@.wf(),
            final(self)@ == (AppView { next_phase: Some(phase), ..old(self)@ }),
    {
        self.next_phase = Some(phase);
    }

    /// Switches developer mode on or off, as its menu does.
    pub fn set_dev_mode(&mut self, on: bool)
        requires
            old(self)@.wf(),
        ensures
            final(self)@.wf(),
            final(self)@ == (AppView { dev_mode: on, ..old(self)@ }),
    {
        self.dev_mode = on;
    }

    pub fn enable_dev_mode(&mut self)
        requires
            old(self)@.wf(),
        ensures
            final(self)@.wf(),
            final(self)@ == (AppView { dev_mode: true, ..old(self)@ }),
    {
        self.dev_mode = true;
    }

    /// Leaves developer mode, dropping its tool and the inspected tile.
    pub fn disable_dev_mode(&mut self)
        requires
            old(self)@.wf(),
        ensures
            final(self)@.wf(),
            final(self)@ == (AppView {
                dev_mode: false,
                inspected_tile: None,
                mouse_tool: None,
                ..old(self)@
            }),
    {
        self.dev_mode = false;
        self.inspected_tile = None;
        self.mouse_tool = None;
    }

    /// Picks the inspect tool, unless a tool is picked already.
    pub fn pick_inspect_tool(&mut self)
        requires
            old(self)@.wf(),
        ensures
            final(self)@.wf(),
            final(self)@ == (AppView {
                mouse_tool: match old(self)@.mouse_tool {
                    Some(t) => Some(t),
                    None => Some(MouseTool::DevTileInspect),
                },
                ..old(self)@
            }),
    {
        if self.mouse_tool.is_none() {
            self.mouse_tool = Some(MouseTool::DevTileInspect);
        }
    }

    /// Puts the picked tool down.
    pub fn cancel_tool(&mut self)
        requires
            old(self)@.wf(),
        ensures
            final(self)@.wf(),
            final(self)@ == (AppView { mouse_tool: None, ..old(self)@ }),
    {
        self.mouse_tool = None;
    }

    /// Stops inspecting a tile.
    pub fn deselect_tile(&mut self)
        requires
            old(self)@.wf(),
        ensures
            final(self)@.wf(),
            final(self)@ == (AppView { inspected_tile: None, ..old(self)@ }),
    {
        self.inspected_tile = None;
    }

    /// The field in play, if any.
    pub fn minefield(&self) -> (r: Option<&Minefield>)
        ensures
            match r {
                Some(f) => self@.field == Some(f@),
                None => self@.field is None,
            },
    {
        match &self.minefield {
            Some(f) => Some(f),
            None => None,
        }
    }

    pub fn current_phase(&self) -> (r: AppPhase)
        ensures
            r == self@.current_phase,
    {
        self.current_phase
    }

    pub fn next_phase(&self) -> (r: Option<AppPhase>)
        ensures
            r == self@.next_phase,
    {
        self.next_phase
    }

    pub fn dev_mode(&self) -> (r: bool)
        ensures
            r == self@.dev_mode,
    {
        self.dev_mode
    }

    pub fn mouse_tool(&self) -> (r: Option<MouseTool>)
        ensures
            r == self@.mouse_tool,
    {
        self.mouse_tool
    }

    pub fn inspected_tile(&self) -> (r: Option<Coordinate>)
        ensures
            match r {
                Some(c) => self@.inspected_tile == Some(c@),
                None => self@.inspected_tile is None,
            },
    {
        self.inspected_tile
    }

    /// Whether `coord` is among the tiles lit up around the hovered one.
    pub fn is_highlighted(&self, coord: Coordinate) -> (r: bool)
        ensures
            r == exists|m: int|
                0 <= m < self@.highlighted_tiles.len() && #[trigger] self@.highlighted_tiles[m]@
                    == coord@,
    {
        let r = stack_contains(&self.highlighted_tiles, coord);
        proof {
            assert(self@.highlighted_tiles == self.highlighted_tiles@);
            if r {
                let m = choose|m: int|
                    0 <= m < self.highlighted_tiles.len() && #[trigger] self.highlighted_tiles@[m]@
                        == coord@;
                assert(self@.highlighted_tiles[m]@ == coord@);
            }
        }
        r
    }
}

} // verus!
