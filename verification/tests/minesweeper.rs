use tesseract::minesweeper::coordinate::{coordinate, Coordinate, Ordinate};
use tesseract::minesweeper::tile::TileError;
use tesseract::minesweeper::placement::place_drawn;
use tesseract::minesweeper::{Minefield, QueryResult, StartDraw};
use tesseract::FieldSettings;

fn debug_minefield() -> Minefield {
    Minefield::new(FieldSettings::new(coordinate(5, 5, 5, 5), 4).unwrap())
}

fn field(x: usize, y: usize, z: usize, w: usize, mines: u16) -> Minefield {
    Minefield::new(FieldSettings::new(coordinate(x, y, z, w), mines).unwrap())
}

fn all_coordinates(x: usize, y: usize, z: usize, w: usize) -> Vec<Coordinate> {
    let mut all = vec![];
    for a in 1..=x {
        for b in 1..=y {
            for c in 1..=z {
                for d in 1..=w {
                    all.push(coordinate(a, b, c, d));
                }
            }
        }
    }
    all
}

#[test]
fn tests_iter_ordinate_test() {
    let field = debug_minefield();
    let result = field.iter_ordinate(coordinate(1, 1, 3, 1), 2, Ordinate::Z);

    assert_eq!(result, 1..6);
}

#[test]
fn tests_get_neighbours_test_2() {
    let field = debug_minefield();
    let result = field.get_neighbours(coordinate(1, 2, 5, 4), 1);

    assert_eq!(result.len(), 36 - 1);
    assert!(!result.contains(&coordinate(1, 2, 5, 4)));
    assert!(result.contains(&coordinate(2, 3, 5, 5)));
    assert!(result.contains(&coordinate(1, 1, 4, 3)));
}

#[test]
fn neighbours_come_in_lexicographic_order() {
    let field = debug_minefield();
    let result = field.get_neighbours(coordinate(1, 1, 1, 1), 1);
    assert_eq!(result.len(), 15);
    assert_eq!(result[0], coordinate(1, 1, 1, 2));
    assert_eq!(result[14], coordinate(2, 2, 2, 2));
    for k in 1..result.len() {
        let a = (result[k - 1].x(), result[k - 1].y(), result[k - 1].z(), result[k - 1].w());
        let b = (result[k].x(), result[k].y(), result[k].z(), result[k].w());
        assert!(a < b);
    }
    let inner = field.get_neighbours(coordinate(3, 3, 3, 3), 1);
    assert_eq!(inner.len(), 80);
    let wide = field.get_neighbours(coordinate(3, 3, 3, 3), 2);
    assert_eq!(wide.len(), 625 - 1);
}

#[test]
fn new_field_is_fresh() {
    let field = debug_minefield();
    assert_eq!(field.mines_remaining(), 4);
    assert!(field.delta());
    assert!(!field.has_started());
    assert!(!field.has_cheated());
    assert!(!field.game_won());
    let mut mines = 0;
    for c in all_coordinates(5, 5, 5, 5) {
        assert_eq!(field.query_tile(c), QueryResult::Hidden);
        if field.index(c).has_mine() {
            mines += 1;
        }
        let around = field.get_neighbours(c, 1);
        assert_eq!(field.index(c).hidden_neighbours() as usize, around.len());
        let mined = around.iter().filter(|&&n| field.index(n).has_mine()).count();
        assert_eq!(field.index(c).true_minecount() as usize, mined);
    }
    assert_eq!(mines, 4);
    assert_eq!(field.length(Ordinate::W), 5);
}

#[test]
fn settings_make_a_field_of_the_same_shape() {
    let first = field(3, 4, 2, 1, 6);
    let second = Minefield::new(first.settings());
    assert_eq!(second.mines_remaining(), 6);
    assert_eq!(second.length(Ordinate::X), 3);
    assert_eq!(second.length(Ordinate::Y), 4);
    assert_eq!(second.length(Ordinate::Z), 2);
    assert_eq!(second.length(Ordinate::W), 1);
}

#[test]
fn reveal_on_a_field_without_mines_wins() {
    let mut f = field(4, 3, 2, 2, 0);
    assert!(f.reveal_tile(coordinate(2, 2, 1, 1)).is_ok());
    assert!(f.has_started());
    assert!(f.game_won());
    for c in all_coordinates(4, 3, 2, 2) {
        assert_eq!(f.query_tile(c), QueryResult::Blank);
        assert_eq!(f.index(c).hidden_neighbours(), 0);
    }
}

#[test]
fn reveal_of_a_mine_explodes() {
    let mut f = field(4, 4, 1, 1, 4);
    let mine = all_coordinates(4, 4, 1, 1).into_iter().find(|&c| f.index(c).has_mine()).unwrap();
    match f.reveal_tile(mine) {
        Err(TileError::Exploded) => {},
        _ => panic!("revealing a mine must explode"),
    }
    assert_eq!(f.query_tile(mine), QueryResult::Exploded);
    assert_eq!(f.query_tile_gameover(mine), QueryResult::Exploded);
}

#[test]
fn flags_count_against_the_mines() {
    let mut f = field(3, 3, 1, 1, 0);
    assert!(f.toggle_flagged(coordinate(1, 1, 1, 1)));
    assert_eq!(f.mines_remaining(), -1);
    assert_eq!(f.query_tile(coordinate(1, 1, 1, 1)), QueryResult::Flagged);
    assert_eq!(f.index(coordinate(2, 2, 1, 1)).minecount(true), -1);
    assert_eq!(f.index(coordinate(2, 2, 1, 1)).minecount(false), 0);
    assert!(!f.toggle_flagged(coordinate(1, 1, 1, 1)));
    assert_eq!(f.mines_remaining(), 0);
    assert_eq!(f.query_tile(coordinate(1, 1, 1, 1)), QueryResult::Hidden);
    assert_eq!(f.index(coordinate(2, 2, 1, 1)).minecount(true), 0);
}

#[test]
fn reveal_leaves_flagged_tiles_alone() {
    let mut f = field(3, 1, 1, 1, 0);
    f.toggle_flagged(coordinate(1, 1, 1, 1));
    assert!(f.reveal_tile(coordinate(3, 1, 1, 1)).is_ok());
    assert_eq!(f.query_tile(coordinate(1, 1, 1, 1)), QueryResult::Flagged);
    assert!(f.index(coordinate(3, 1, 1, 1)).is_revealed());
    assert!(!f.game_won());
}

#[test]
fn quickstart_reveals_a_safe_start() {
    let mut f = field(4, 4, 1, 1, 0);
    assert!(f.quickstart().is_ok());
    assert!(f.has_started());
    assert!(f.game_won());
}

#[test]
fn quickstart_gives_up_when_every_safe_tile_touches_a_mine() {
    let mut f = field(2, 2, 1, 1, 1);
    let result = f.quickstart();
    assert_eq!(result, Err("Cannot find tile without adjacent mines!".to_string()));
    assert!(!f.has_started());
}

#[test]
fn game_over_view_shows_the_mines() {
    let mut f = field(4, 4, 1, 1, 4);
    let all = all_coordinates(4, 4, 1, 1);
    let mine = *all.iter().find(|&&c| f.index(c).has_mine()).unwrap();
    let safe = *all.iter().find(|&&c| !f.index(c).has_mine()).unwrap();
    let other_mine = *all.iter().filter(|&&c| f.index(c).has_mine()).nth(1).unwrap();
    let hidden_safe = *all.iter().filter(|&&c| !f.index(c).has_mine()).nth(1).unwrap();
    f.toggle_flagged(mine);
    f.toggle_flagged(safe);
    assert_eq!(f.query_tile_gameover(mine), QueryResult::GoCorrect);
    assert_eq!(f.query_tile_gameover(safe), QueryResult::GoIncorrect);
    assert_eq!(f.query_tile_gameover(other_mine), QueryResult::GoMine);
    let count = f.index(hidden_safe).minecount(true);
    assert_eq!(f.query_tile_gameover(hidden_safe), QueryResult::GoHidden(count));
}

#[test]
fn debug_marks_show_first() {
    let mut f = field(2, 2, 1, 1, 0);
    f.index_mut(coordinate(1, 2, 1, 1)).toggle_debug_mark();
    assert!(f.index(coordinate(1, 2, 1, 1)).is_debug_marked());
    assert_eq!(f.query_tile(coordinate(1, 2, 1, 1)), QueryResult::DebugMarked);
}

#[test]
fn cheat_and_delta_switches() {
    let mut f = field(2, 2, 1, 1, 0);
    f.cheat();
    assert!(f.has_cheated());
    f.toggle_delta();
    assert!(!f.delta());
    f.toggle_delta();
    assert!(f.delta());
}

#[test]
fn toggling_a_flag_twice_restores_the_field() {
    let mut f = field(5, 5, 1, 1, 5);
    let before: Vec<(bool, bool, bool, u16, i16, u16)> = all_coordinates(5, 5, 1, 1)
        .into_iter()
        .map(|c| {
            let t = f.index(c);
            (t.has_mine(), t.is_flagged(), t.is_revealed(), t.true_minecount(), t.minecount(true), t.hidden_neighbours())
        })
        .collect();
    let first = f.toggle_flagged(coordinate(3, 3, 1, 1));
    let second = f.toggle_flagged(coordinate(3, 3, 1, 1));
    assert_eq!(second, !first);
    let after: Vec<(bool, bool, bool, u16, i16, u16)> = all_coordinates(5, 5, 1, 1)
        .into_iter()
        .map(|c| {
            let t = f.index(c);
            (t.has_mine(), t.is_flagged(), t.is_revealed(), t.true_minecount(), t.minecount(true), t.hidden_neighbours())
        })
        .collect();
    assert_eq!(before, after);
    assert_eq!(f.mines_remaining(), 5);
}

#[test]
fn won_once_every_safe_tile_is_revealed() {
    let mut f = field(4, 4, 1, 1, 4);
    let safe: Vec<Coordinate> =
        all_coordinates(4, 4, 1, 1).into_iter().filter(|&c| !f.index(c).has_mine()).collect();
    assert!(!f.game_won());
    for &c in &safe {
        if f.query_tile(c) == QueryResult::Hidden {
            assert!(f.reveal_tile(c).is_ok());
        }
    }
    assert!(f.game_won());
    for c in all_coordinates(4, 4, 1, 1) {
        assert_eq!(f.index(c).is_revealed(), !f.index(c).has_mine());
    }
}

#[test]
fn neighbourhood_is_symmetric() {
    let f = field(3, 2, 2, 2, 0);
    let all = all_coordinates(3, 2, 2, 2);
    for &a in &all {
        for &b in &all {
            let a_sees_b = f.get_neighbours(a, 1).contains(&b);
            let b_sees_a = f.get_neighbours(b, 1).contains(&a);
            assert_eq!(a_sees_b, b_sees_a);
        }
    }
}

#[test]
fn reveal_of_a_revealed_tile_answers_already_revealed() {
    let mut f = field(3, 3, 1, 1, 0);
    f.toggle_flagged(coordinate(1, 1, 1, 1));
    assert!(f.reveal_tile(coordinate(3, 3, 1, 1)).is_ok());
    assert!(!f.game_won());
    match f.reveal_tile(coordinate(3, 3, 1, 1)) {
        Err(TileError::AlreadyRevealed) => {},
        _ => panic!("a revealed tile cannot be revealed again"),
    }
    assert_eq!(f.query_tile(coordinate(3, 3, 1, 1)), QueryResult::Blank);
    assert_eq!(f.mines_remaining(), -1);
    assert!(f.has_started());
}

#[test]
fn exploding_first_leaves_the_game_unstarted() {
    let mut f = field(4, 4, 1, 1, 4);
    let mine = all_coordinates(4, 4, 1, 1).into_iter().find(|&c| f.index(c).has_mine()).unwrap();
    assert!(f.reveal_tile(mine).is_err());
    assert!(!f.has_started());
    for c in all_coordinates(4, 4, 1, 1) {
        assert_eq!(f.index(c).is_revealed(), c == mine);
    }
}

#[test]
fn without_delta_wrong_flags_cannot_lead_to_a_mine() {
    for _ in 0..20 {
        let mut f = field(5, 5, 1, 1, 3);
        f.toggle_delta();
        let all = all_coordinates(5, 5, 1, 1);
        let safe: Vec<Coordinate> = all.iter().copied().filter(|&c| !f.index(c).has_mine()).collect();
        f.toggle_flagged(safe[0]);
        for &c in &safe[1..] {
            if f.query_tile(c) == QueryResult::Hidden {
                assert!(f.reveal_tile(c).is_ok());
            }
        }
    }
}

#[test]
fn judged_draws_start_only_on_clear_tiles() {
    let f = field(3, 3, 1, 1, 0);
    assert_eq!(f.judge_draw(13), (4, StartDraw::Start));
    let g = field(2, 2, 1, 1, 1);
    for draw in 0..4u32 {
        let (index, judged) = g.judge_draw(draw);
        assert_eq!(index, draw as usize);
        assert!(judged == StartDraw::Miss || judged == StartDraw::Mine);
    }
}

#[test]
fn drawn_positions_skip_laid_mines() {
    let tiles = vec![false, true, false];
    assert_eq!(place_drawn(&tiles, 4), None);
    assert_eq!(place_drawn(&tiles, 5), Some(2));
    assert_eq!(place_drawn(&tiles, 3), Some(0));
}

fn line_with_one_mine() -> (Minefield, u32, u32) {
    let f = field(5, 1, 1, 1, 1);
    let mine = (1..=5).find(|&x| f.index(coordinate(x, 1, 1, 1)).has_mine()).unwrap();
    let miss = if mine > 1 { mine - 1 } else { mine + 1 };
    let start = if mine >= 3 { 1 } else { 5 };
    (f, (miss - 1) as u32, (start - 1) as u32)
}

#[test]
fn start_gives_up_after_ten_thousand_misses() {
    let (mut f, miss, start) = line_with_one_mine();
    let mut draws = vec![miss; 10000];
    draws.push(start);
    assert_eq!(f.start_with_draws(&draws), Err("Cannot find tile without adjacent mines!".to_string()));
    assert!(!f.has_started());
    draws.remove(0);
    assert!(f.start_with_draws(&draws).is_ok());
    assert!(f.has_started());
    assert!(f.index(coordinate(start as usize + 1, 1, 1, 1)).is_revealed());
}

#[test]
fn start_skips_mines_without_counting_them() {
    let (mut f, miss, start) = line_with_one_mine();
    let mine = (0..5u32).find(|&i| f.index(coordinate(i as usize + 1, 1, 1, 1)).has_mine()).unwrap();
    assert_eq!(f.judge_draw(mine).1, StartDraw::Mine);
    let mut draws = vec![mine; 20000];
    draws.extend(vec![miss; 9999]);
    draws.push(start + 5);
    assert!(f.start_with_draws(&draws).is_ok());
    let mut g = field(2, 2, 1, 1, 1);
    assert!(g.start_with_draws(&vec![0, 1, 2, 3]).is_err());
    assert!(g.start_with_draws(&vec![]).is_err());
}

#[test]
fn one_start_step_reveals_only_on_a_clear_tile() {
    let (mut f, miss, start) = line_with_one_mine();
    assert_eq!(f.quickstart_step(miss), StartDraw::Miss);
    assert!(!f.has_started());
    assert_eq!(f.quickstart_step(start), StartDraw::Start);
    assert!(f.has_started());
}
