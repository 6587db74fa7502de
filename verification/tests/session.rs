use tesseract::minesweeper::coordinate::{coordinate, Ordinate};
use tesseract::minesweeper::{Minefield, QueryResult};
use tesseract::session::{AppPhase, AppState, MouseTool};
use tesseract::FieldSettings;

fn empty_field(x: usize, y: usize) -> Minefield {
    Minefield::new(FieldSettings::new(coordinate(x, y, 1, 1), 0).unwrap())
}

#[test]
fn session_opens_on_the_main_menu() {
    let state = AppState::new();
    assert_eq!(state.current_phase(), AppPhase::MainMenu);
    assert_eq!(state.next_phase(), None);
    assert!(state.minefield().is_none());
    assert!(!state.dev_mode());
    assert_eq!(state.mouse_tool(), None);
    assert_eq!(state.inspected_tile(), None);
    assert_eq!(AppPhase::default(), AppPhase::MainMenu);
}

#[test]
fn session_phase_changes_wait_for_the_next_frame() {
    let mut state = AppState::new();
    state.request_phase(AppPhase::SizeMenu);
    assert_eq!(state.current_phase(), AppPhase::MainMenu);
    state.begin_frame();
    assert_eq!(state.current_phase(), AppPhase::SizeMenu);
    assert_eq!(state.next_phase(), None);
    state.set_minefield(Minefield::new(FieldSettings::new(coordinate(4, 4, 1, 1), 2).unwrap()));
    assert_eq!(state.next_phase(), Some(AppPhase::GameRunning));
    state.begin_frame();
    assert_eq!(state.current_phase(), AppPhase::GameRunning);
    state.clear_minefield();
    assert!(state.minefield().is_none());
    state.begin_frame();
    assert_eq!(state.current_phase(), AppPhase::MainMenu);
}

#[test]
fn session_start_game_reveals_a_safe_start() {
    let mut state = AppState::new();
    assert!(state.start_game(empty_field(3, 3)).is_ok());
    assert!(state.minefield().unwrap().has_started());
    state.begin_frame();
    assert_eq!(state.current_phase(), AppPhase::GameWon);
}

#[test]
fn session_start_game_can_fail() {
    let mut state = AppState::new();
    let field = Minefield::new(FieldSettings::new(coordinate(2, 2, 1, 1), 1).unwrap());
    let result = state.start_game(field);
    assert_eq!(result, Err("Cannot find tile without adjacent mines!".to_string()));
    assert!(state.minefield().is_none());
    assert_eq!(state.next_phase(), None);
}

#[test]
fn session_clicks_flag_and_reveal() {
    let mut state = AppState::new();
    state.set_minefield(empty_field(3, 3));
    state.begin_frame();
    let corner = coordinate(1, 1, 1, 1);
    state.tile_events(corner, false, true, false);
    assert_eq!(state.tile_query(corner), QueryResult::Flagged);
    state.tile_events(corner, false, true, false);
    assert_eq!(state.tile_query(corner), QueryResult::Hidden);
    state.tile_events(corner, true, false, true);
    assert_eq!(state.tile_query(corner), QueryResult::Blank);
    assert!(state.minefield().unwrap().game_won());
    state.begin_frame();
    assert_eq!(state.current_phase(), AppPhase::GameWon);
}

#[test]
fn session_mine_loses_the_game() {
    let mut state = AppState::new();
    let field = Minefield::new(FieldSettings::new(coordinate(4, 4, 1, 1), 4).unwrap());
    let mut mine = None;
    for x in 1..=4 {
        for y in 1..=4 {
            if field.index(coordinate(x, y, 1, 1)).has_mine() {
                mine = Some(coordinate(x, y, 1, 1));
            }
        }
    }
    let mine = mine.unwrap();
    state.set_minefield(field);
    state.begin_frame();
    state.tile_events(mine, true, false, false);
    assert_eq!(state.next_phase(), Some(AppPhase::GameLost));
    state.begin_frame();
    assert_eq!(state.current_phase(), AppPhase::GameLost);
    assert_eq!(state.tile_query(mine), QueryResult::Exploded);
}

#[test]
fn session_highlights_the_neighbours_of_the_hovered_tile() {
    let mut state = AppState::new();
    state.set_minefield(empty_field(4, 4));
    state.begin_frame();
    state.tile_events(coordinate(2, 2, 1, 1), false, false, true);
    state.begin_frame();
    assert!(state.is_highlighted(coordinate(1, 1, 1, 1)));
    assert!(state.is_highlighted(coordinate(3, 3, 1, 1)));
    assert!(!state.is_highlighted(coordinate(2, 2, 1, 1)));
    assert!(!state.is_highlighted(coordinate(4, 4, 1, 1)));
    state.begin_frame();
    assert!(!state.is_highlighted(coordinate(1, 1, 1, 1)));
    assert_eq!(state.minefield().unwrap().length(Ordinate::X), 4);
}

#[test]
fn session_inspect_tool_selects_instead_of_playing() {
    let mut state = AppState::new();
    state.set_minefield(empty_field(3, 3));
    state.begin_frame();
    state.set_dev_mode(true);
    assert!(state.dev_mode());
    state.pick_inspect_tool();
    assert_eq!(state.mouse_tool(), Some(MouseTool::DevTileInspect));
    state.tile_events(coordinate(2, 2, 1, 1), true, false, false);
    assert_eq!(state.inspected_tile(), Some(coordinate(2, 2, 1, 1)));
    assert_eq!(state.tile_query(coordinate(2, 2, 1, 1)), QueryResult::Hidden);
    state.cancel_tool();
    assert_eq!(state.mouse_tool(), None);
    state.deselect_tile();
    assert_eq!(state.inspected_tile(), None);
    state.pick_inspect_tool();
    state.tile_events(coordinate(1, 2, 1, 1), true, false, false);
    state.disable_dev_mode();
    assert!(!state.dev_mode());
    assert_eq!(state.mouse_tool(), None);
    assert_eq!(state.inspected_tile(), None);
    state.enable_dev_mode();
    assert!(state.dev_mode());
}

#[test]
fn session_clicks_do_nothing_once_the_game_is_lost() {
    let mut state = AppState::new();
    let field = Minefield::new(FieldSettings::new(coordinate(4, 4, 1, 1), 4).unwrap());
    let mut mine = None;
    let mut safe = None;
    for x in 1..=4 {
        for y in 1..=4 {
            if field.index(coordinate(x, y, 1, 1)).has_mine() {
                mine = Some(coordinate(x, y, 1, 1));
            } else {
                safe = Some(coordinate(x, y, 1, 1));
            }
        }
    }
    state.set_minefield(field);
    state.begin_frame();
    state.tile_events(mine.unwrap(), true, false, false);
    state.tile_events(safe.unwrap(), false, true, false);
    assert!(!state.minefield().unwrap().index(safe.unwrap()).is_flagged());
    state.begin_frame();
    state.tile_events(safe.unwrap(), true, false, false);
    assert!(!state.minefield().unwrap().index(safe.unwrap()).is_revealed());
    assert_eq!(state.current_phase(), AppPhase::GameLost);
    state.begin_frame();
    assert_eq!(state.current_phase(), AppPhase::GameLost);
}
