use tesseract::game::{coordinate, Coordinate, Minefield, Ordinate, QueryResult, Tile};

fn debug_minefield() -> Minefield {
    Minefield::new(coordinate(5, 5, 5, 5), 4).unwrap()
}

fn all_coordinates(x: usize, y: usize, z: usize, w: usize) -> Vec<Coordinate> {
    let mut all = vec![];
    for a in 1..=x {
        for b in 1..=y {
            for c in 1..=z {
                for d in 1..=w {
                    all.push(coordinate(a, b, c, d));
                }
            }
        }
    }
    all
}

#[test]
fn iter_ordinate_test() {
    let field = debug_minefield();
    let result = field.iter_ordinate(coordinate(1, 1, 3, 1), 2, Ordinate::Z);

    assert_eq!(result, 1..6);
}

#[test]
fn get_neighbours_test_2() {
    let field = debug_minefield();
    let result = field.get_neighbours(coordinate(1, 2, 5, 4), 1);

    assert_eq!(result.len(), 36 - 1);
    assert!(!result.contains(&coordinate(1, 2, 5, 4)));
    assert!(result.contains(&coordinate(2, 3, 5, 5)));
    assert!(result.contains(&coordinate(1, 1, 4, 3)));
}

#[test]
fn game_iter_ordinate_clamps_at_both_ends() {
    let field = debug_minefield();
    assert_eq!(field.iter_ordinate(coordinate(5, 1, 1, 1), 1, Ordinate::X), 4..6);
    assert_eq!(field.iter_ordinate(coordinate(3, 1, 1, 1), 1, Ordinate::X), 2..5);
    assert_eq!(field.iter_ordinate(coordinate(1, 1, 1, 1), 0, Ordinate::W), 1..2);
}

#[test]
fn game_new_refuses_more_mines_than_tiles() {
    let result = Minefield::new(coordinate(2, 2, 1, 1), 5);
    match result {
        Err(e) => assert_eq!(e, "Mine count is too large for the given board dimensions."),
        Ok(_) => panic!("five mines cannot fit on four tiles"),
    }
}

#[test]
fn game_new_counts_mines_around_each_tile() {
    let field = Minefield::new(coordinate(3, 3, 1, 1), 9).unwrap();
    assert_eq!(field.mines_remaining(), 9);
    assert!(field.delta());
    assert_eq!(field.index(coordinate(1, 1, 1, 1)).minecount(), 3);
    assert_eq!(field.index(coordinate(2, 1, 1, 1)).minecount(), 5);
    assert_eq!(field.index(coordinate(2, 2, 1, 1)).minecount(), 8);
    for c in all_coordinates(3, 3, 1, 1) {
        assert!(field.index(c).has_mine());
        assert!(!field.index(c).is_flagged());
        assert!(!field.index(c).is_revealed());
        assert_eq!(field.query_tile(c), QueryResult::Blank);
    }
}

#[test]
fn game_new_lays_the_asked_number_of_mines() {
    let field = Minefield::new(coordinate(4, 3, 2, 1), 7).unwrap();
    let mines = all_coordinates(4, 3, 2, 1).into_iter().filter(|&c| field.index(c).has_mine()).count();
    assert_eq!(mines, 7);
    for c in all_coordinates(4, 3, 2, 1) {
        let around = field.get_neighbours(c, 1).into_iter().filter(|&n| field.index(n).has_mine()).count();
        assert_eq!(field.index(c).minecount() as usize, around);
    }
}

#[test]
fn game_reveal_on_a_field_without_mines_reveals_everything() {
    let mut field = Minefield::new(coordinate(4, 4, 2, 1), 0).unwrap();
    assert_eq!(field.reveal_tile(coordinate(1, 1, 1, 1)), Ok(()));
    for c in all_coordinates(4, 4, 2, 1) {
        assert!(field.index(c).is_revealed());
        assert_eq!(field.query_tile(c), QueryResult::Revealed(0));
    }
}

#[test]
fn game_reveal_of_a_mine_fails() {
    let mut field = Minefield::new(coordinate(2, 2, 1, 1), 4).unwrap();
    let result = field.reveal_tile(coordinate(2, 1, 1, 1));
    assert_eq!(result, Err("There was a mine there!".to_string()));
    assert_eq!(field.query_tile(coordinate(2, 1, 1, 1)), QueryResult::Mine);
    assert_eq!(field.query_tile(coordinate(1, 1, 1, 1)), QueryResult::Blank);
}

#[test]
fn game_reveal_of_a_counted_tile_stops_there() {
    // Draw fields of three tiles with one mine until the mine is at the end.
    let mut field = Minefield::new(coordinate(3, 1, 1, 1), 1).unwrap();
    let mut draws = 0;
    while !field.index(coordinate(1, 1, 1, 1)).has_mine() {
        draws += 1;
        assert!(draws < 1000);
        field = Minefield::new(coordinate(3, 1, 1, 1), 1).unwrap();
    }
    assert_eq!(field.reveal_tile(coordinate(2, 1, 1, 1)), Ok(()));
    assert_eq!(field.query_tile(coordinate(2, 1, 1, 1)), QueryResult::Revealed(1));
    assert_eq!(field.query_tile(coordinate(3, 1, 1, 1)), QueryResult::Blank);
    assert_eq!(field.query_tile(coordinate(1, 1, 1, 1)), QueryResult::Blank);
}

#[test]
fn game_toggle_flagged_counts_down_either_way() {
    let mut field = Minefield::new(coordinate(3, 3, 1, 1), 0).unwrap();
    assert!(field.toggle_flagged(coordinate(1, 1, 1, 1)));
    assert_eq!(field.mines_remaining(), -1);
    assert_eq!(field.query_tile(coordinate(1, 1, 1, 1)), QueryResult::Flagged);
    assert!(!field.toggle_flagged(coordinate(1, 1, 1, 1)));
    assert_eq!(field.mines_remaining(), -2);
    assert_eq!(field.query_tile(coordinate(1, 1, 1, 1)), QueryResult::Blank);
}

#[test]
fn game_flags_lower_the_delta_count() {
    let mut field = Minefield::new(coordinate(3, 3, 1, 1), 0).unwrap();
    field.toggle_flagged(coordinate(1, 1, 1, 1));
    assert_eq!(field.index(coordinate(2, 2, 1, 1)).delta_minecount(), -1);
    assert_eq!(field.reveal_tile(coordinate(3, 3, 1, 1)), Ok(()));
    assert_eq!(field.query_tile(coordinate(2, 2, 1, 1)), QueryResult::Revealed(-1));
    assert_eq!(field.query_tile(coordinate(1, 1, 1, 1)), QueryResult::Flagged);
    field.toggle_delta();
    assert!(!field.delta());
    assert_eq!(field.query_tile(coordinate(2, 2, 1, 1)), QueryResult::Revealed(0));
}

#[test]
fn game_tile_starts_hidden() {
    let tile = Tile::new(true);
    assert!(tile.has_mine());
    assert!(!tile.is_flagged());
    assert!(!tile.is_revealed());
    assert_eq!(tile.minecount(), 0);
    assert_eq!(tile.delta_minecount(), 0);
}

#[test]
fn game_length_gives_each_axis() {
    let field = Minefield::new(coordinate(2, 3, 4, 5), 0).unwrap();
    assert_eq!(field.length(Ordinate::X), 2);
    assert_eq!(field.length(Ordinate::Y), 3);
    assert_eq!(field.length(Ordinate::Z), 4);
    assert_eq!(field.length(Ordinate::W), 5);
}

#[test]
fn game_click_counts_a_successful_reveal_as_lost() {
    let mut field = Minefield::new(coordinate(3, 3, 1, 1), 0).unwrap();
    assert!(!field.tile_clicked(coordinate(1, 1, 1, 1), false, true));
    assert_eq!(field.query_tile(coordinate(1, 1, 1, 1)), QueryResult::Flagged);
    assert!(!field.tile_clicked(coordinate(1, 1, 1, 1), false, true));
    assert_eq!(field.query_tile(coordinate(1, 1, 1, 1)), QueryResult::Blank);
    assert!(field.tile_clicked(coordinate(2, 2, 1, 1), true, false));
    assert_eq!(field.query_tile(coordinate(1, 1, 1, 1)), QueryResult::Revealed(0));
    assert!(!field.tile_clicked(coordinate(2, 2, 1, 1), true, true));
}

#[test]
fn game_click_on_a_mine_is_not_counted_as_lost() {
    let mut field = Minefield::new(coordinate(2, 2, 1, 1), 4).unwrap();
    assert!(!field.tile_clicked(coordinate(1, 1, 1, 1), true, false));
    assert_eq!(field.query_tile(coordinate(1, 1, 1, 1)), QueryResult::Mine);
}
