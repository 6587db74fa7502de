use tesseract::minesweeper::coordinate::{coordinate, Ordinate};
use tesseract::{FieldSettings, Preset};

#[test]
fn settings_refuse_more_than_a_quarter_mined() {
    match FieldSettings::new(coordinate(4, 4, 1, 1), 5) {
        Err(e) => assert_eq!(e, "Too many mines for this size of grid."),
        Ok(_) => panic!("five mines on sixteen tiles is too many"),
    }
    assert!(FieldSettings::new(coordinate(4, 4, 1, 1), 4).is_ok());
    assert!(FieldSettings::new(coordinate(1, 1, 1, 1), 0).is_ok());
}

#[test]
fn presets_generate_their_fields() {
    let cases = [
        (Preset::Small2D, (8, 8, 1, 1), 10),
        (Preset::Medium2D, (16, 16, 1, 1), 40),
        (Preset::Large2D, (32, 32, 1, 1), 160),
        (Preset::Small4D, (4, 4, 4, 4), 10),
        (Preset::Medium4D, (6, 6, 6, 6), 40),
        (Preset::Large4D, (10, 10, 10, 10), 320),
    ];
    for (preset, size, mines) in cases {
        let field = preset.generate();
        assert_eq!(field.length(Ordinate::X), size.0);
        assert_eq!(field.length(Ordinate::Y), size.1);
        assert_eq!(field.length(Ordinate::Z), size.2);
        assert_eq!(field.length(Ordinate::W), size.3);
        assert_eq!(field.mines_remaining(), mines);
        assert!(!field.has_started());
    }
}
