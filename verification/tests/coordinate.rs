use tesseract::minesweeper::coordinate::{coordinate, Coordinate, Ordinate, ORDINATES};

#[test]
fn coordinate_new_refuses_zero() {
    for (x, y, z, w) in [(0, 1, 1, 1), (1, 0, 1, 1), (1, 1, 0, 1), (1, 1, 1, 0)] {
        match Coordinate::new(x, y, z, w) {
            Err(e) => assert_eq!(e, "Ordinates must be positive!"),
            Ok(_) => panic!("a zero ordinate must be refused"),
        }
    }
    let c = Coordinate::new(1, 2, 3, 4).unwrap();
    assert_eq!(c, coordinate(1, 2, 3, 4));
}

#[test]
fn coordinate_getters() {
    let c = coordinate(2, 3, 5, 7);
    assert_eq!((c.x(), c.y(), c.z(), c.w()), (2, 3, 5, 7));
    assert_eq!(c.get(Ordinate::X), 2);
    assert_eq!(c.get(Ordinate::W), 7);
    assert_eq!(c.get_ordinate(Ordinate::Y), 3);
    assert_eq!(c.get_ordinate(Ordinate::Z), 5);
    assert_eq!(c.get_xy(), (2, 3));
    assert_eq!(c.get_zw(), (5, 7));
    assert_eq!(c.multiply_out(), 210);
}

#[test]
fn coordinate_as_text() {
    assert_eq!(coordinate(1, 22, 3, 4).to_string(), "(1, 22, 3, 4)");
    assert_eq!(coordinate(10, 1, 100, 9).to_string(), "(10, 1, 100, 9)");
}

#[test]
fn ordinate_names() {
    let names: Vec<&str> = ORDINATES.iter().map(|o| o.name()).collect();
    assert_eq!(names, vec!["x", "y", "z", "w"]);
    let upper: Vec<String> = ORDINATES.iter().map(|o| o.to_string()).collect();
    assert_eq!(upper, vec!["X", "Y", "Z", "W"]);
}
