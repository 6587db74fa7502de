//! The pictures that stand on tiles, and the styles they come in, each
//! with the snake-case name under which its image is filed.
use vstd::prelude::*;

verus! {

/// A picture shown on a tile.
#[derive(Debug, Copy, Clone, Hash, PartialEq, Eq, Structural)]
pub enum Icon {
    RedFlag,
    IncorrectFlag,
    Mine,
}

impl Icon {
    /// The name under which the picture is filed.
    pub fn snake(&self) -> (r: &'static str)
        ensures
            r@ == match self {
                Icon::RedFlag => "red_flag"@,
                Icon::IncorrectFlag => "incorrect_flag"@,
                Icon::Mine => "mine"@,
            },
    {
        match self {
            Icon::RedFlag => "red_flag",
            Icon::IncorrectFlag => "incorrect_flag",
            Icon::Mine => "mine",
        }
    }
}

/// A set of pictures drawn in one style.
#[derive(Debug, Copy, Clone, Hash, PartialEq, Eq, Structural)]
pub enum IconStyle {
    Classic,
    Modern,
    HighRes,
}

impl IconStyle {
    /// The name under which the style's pictures are filed.
    pub fn snake(&self) -> (r: &'static str)
        ensures
            r@ == match self {
                IconStyle::Classic => "classic"@,
                IconStyle::Modern => "modern"@,
                IconStyle::HighRes => "high_res"@,
            },
    {
        match self {
            IconStyle::Classic => "classic",
            IconStyle::Modern => "modern",
            IconStyle::HighRes => "high_res",
        }
    }
}

} // verus!
