use tesseract::minesweeper::tile::{Tile, TileError};

#[test]
fn tile_starts_hidden_with_its_neighbours() {
    let tile = Tile::new(false, 26);
    assert!(!tile.has_mine());
    assert!(!tile.is_flagged());
    assert!(!tile.is_revealed());
    assert!(!tile.is_debug_marked());
    assert_eq!(tile.true_minecount(), 0);
    assert_eq!(tile.minecount(true), 0);
    assert_eq!(tile.minecount(false), 0);
    assert_eq!(tile.hidden_neighbours(), 26);
    assert!(!tile.is_blank(true));
}

#[test]
fn tile_debug_mark_toggles() {
    let mut tile = Tile::new(true, 3);
    tile.toggle_debug_mark();
    assert!(tile.is_debug_marked());
    tile.toggle_debug_mark();
    assert!(!tile.is_debug_marked());
}

#[test]
fn tile_error_messages() {
    assert_eq!(TileError::Exploded.to_string(), "There was a mine there!");
    assert_eq!(TileError::AlreadyRevealed.to_string(), "The tile is already revealed!");
    assert_eq!(TileError::Underflow("below".to_string()).to_string(), "below");
    assert_eq!(TileError::Overflow("above".to_string()).to_string(), "above");
}
