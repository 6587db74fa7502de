use tesseract::icons::{Icon, IconStyle};

#[test]
fn icon_snake_names() {
    assert_eq!(Icon::RedFlag.snake(), "red_flag");
    assert_eq!(Icon::IncorrectFlag.snake(), "incorrect_flag");
    assert_eq!(Icon::Mine.snake(), "mine");
}

#[test]
fn icon_style_snake_names() {
    assert_eq!(IconStyle::Classic.snake(), "classic");
    assert_eq!(IconStyle::Modern.snake(), "modern");
    assert_eq!(IconStyle::HighRes.snake(), "high_res");
}
