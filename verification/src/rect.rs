use vstd::prelude::*;

verus! {

/// The side of a rectangle that a split takes its part from.
#[derive(Clone, Copy, Debug, PartialEq, Eq, Structural)]
pub enum SplitDirection {
    Top,
    Bottom,
    Left,
    Right,
}

impl SplitDirection {
    /// Whether the split cuts along the horizontal axis (left or right).
    pub fn is_horizontal(self) -> (r: bool)
        ensures
            r == (self == SplitDirection::Left || self == SplitDirection::Right),
    {
        self == SplitDirection::Left || self == SplitDirection::Right
    }

    /// Whether the split cuts along the vertical axis (top or bottom).
    pub fn is_vertical(self) -> (r: bool)
        ensures
            r == (self == SplitDirection::Top || self == SplitDirection::Bottom),
    {
        self == SplitDirection::Top || self == SplitDirection::Bottom
    }
}

/// Every split direction is either horizontal or vertical, never both.
pub proof fn law_split_axis(d: SplitDirection)
    ensures
        (d == SplitDirection::Left || d == SplitDirection::Right) != (d == SplitDirection::Top || d
            == SplitDirection::Bottom),
{
}

} // verus!
