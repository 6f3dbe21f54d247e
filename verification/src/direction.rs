use vstd::prelude::*;

verus! {

/// A step from a cell to one of its children: the centre child or one of
/// the six around it.
#[derive(Clone, Copy, Debug, PartialEq, Eq, Structural, PartialOrd, Ord, Hash)]
pub enum Direction {
    /// The centre child.
    Center,
    /// Along the K axis; a pentagon has no child there.
    K,
    /// Along the J axis.
    J,
    /// Between J and K.
    JK,
    /// Along the I axis.
    I,
    /// Between I and K.
    IK,
    /// Between I and J.
    IJ,
}

impl Direction {
    /// The three bits that a digit slot holds for the direction.
    pub open spec fn digit(self) -> int {
        match self {
            Direction::Center => 0,
            Direction::K => 1,
            Direction::J => 2,
            Direction::JK => 3,
            Direction::I => 4,
            Direction::IK => 5,
            Direction::IJ => 6,
        }
    }

    /// The three bits that a digit slot holds for the direction.
    pub fn value(self) -> (d: u8)
        ensures
            d as int == self.digit(),
            d <= 6,
    {
        match self {
            Direction::Center => 0,
            Direction::K => 1,
            Direction::J => 2,
            Direction::JK => 3,
            Direction::I => 4,
            Direction::IK => 5,
            Direction::IJ => 6,
        }
    }

    /// The direction that a digit slot holds; none for the marker of an
    /// unused slot and above.
    pub fn from_value(value: u8) -> (d: Option<Direction>)
        ensures
            d.is_some() <==> value <= 6,
            d.is_some() ==> d.unwrap().digit() == value as int,
    {
        match value {
            0 => Some(Direction::Center),
            1 => Some(Direction::K),
            2 => Some(Direction::J),
            3 => Some(Direction::JK),
            4 => Some(Direction::I),
            5 => Some(Direction::IK),
            6 => Some(Direction::IJ),
            _ => None,
        }
    }
}

} // verus!
