use tesseract::colors::MinecountColorMap;

fn table() -> MinecountColorMap<&'static str> {
    MinecountColorMap::new(
        vec![(10, "red"), (-1, "purple"), (2, "green"), (0, "gray"), (1, "dark green"), (6, "orange"), (4, "yellow")],
        "dark red",
    )
}

#[test]
fn color_map_finds_the_first_bound_not_exceeded() {
    let map = table();
    assert_eq!(map.get(-5), "purple");
    assert_eq!(map.get(-1), "purple");
    assert_eq!(map.get(0), "gray");
    assert_eq!(map.get(1), "dark green");
    assert_eq!(map.get(2), "green");
    assert_eq!(map.get(3), "yellow");
    assert_eq!(map.get(5), "orange");
    assert_eq!(map.get(10), "red");
    assert_eq!(map.get(11), "dark red");
    assert_eq!(map.get(i16::MAX), "dark red");
}

#[test]
fn color_map_keeps_entries_in_order_of_bound() {
    let map = table();
    let bounds: Vec<i16> = map.rules().iter().map(|e| e.0).collect();
    assert_eq!(bounds, vec![0, 1, 2, 4, 6, 10, i16::MAX]);
    assert_eq!(map.fallback(), "purple");
}

#[test]
fn color_map_keeps_equal_bounds_in_order() {
    let map = MinecountColorMap::new(vec![(3, "first"), (1, "low"), (3, "second")], "rest");
    assert_eq!(map.get(2), "first");
    assert_eq!(map.rules().to_vec(), vec![(3, "first"), (3, "second"), (i16::MAX, "rest")]);
    let empty = MinecountColorMap::new(vec![], 7u8);
    assert_eq!(empty.get(-100), 7);
    assert_eq!(empty.fallback(), 7);
    assert!(empty.rules().is_empty());
}
