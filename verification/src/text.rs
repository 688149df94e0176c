//! How a text run is aligned in its box.

use vstd::prelude::*;

use crate::strs::str_eq;

verus! {

/// Horizontal alignment of text in its box.
#[derive(Clone, Copy, Debug, PartialEq, Eq, Hash, Default)]
pub enum TextAlign {
    #[default]
    Left,
    Center,
    Right,
}

impl TextAlign {
    /// `center`, `right` or `end`; anything else is left.
    pub fn parse(s: &str) -> (r: TextAlign)
        ensures
            r == if s@ == "center"@ {
                TextAlign::Center
            } else if s@ == "right"@ || s@ == "end"@ {
                TextAlign::Right
            } else {
                TextAlign::Left
            },
    {
        if str_eq(s, "center") {
            TextAlign::Center
        } else if str_eq(s, "right") || str_eq(s, "end") {
            TextAlign::Right
        } else {
            TextAlign::Left
        }
    }
}

} // verus!
