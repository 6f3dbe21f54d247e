use vstd::prelude::*;

verus! {

/// Depth of a cell in the grid hierarchy, from 0 (coarsest) to 15 (finest).
#[derive(Clone, Copy, Debug, PartialEq, Eq, Structural, PartialOrd, Ord, Hash)]
pub enum Resolution {
    Zero,
    One,
    Two,
    Three,
    Four,
    Five,
    Six,
    Seven,
    Eight,
    Nine,
    Ten,
    Eleven,
    Twelve,
    Thirteen,
    Fourteen,
    Fifteen,
}

/// The finest resolution, as a number.
pub const MAX_RESOLUTION: u8 = 15;

impl Resolution {
    /// The resolution as a number in `0..=15`.
    pub open spec fn level(self) -> int {
        match self {
            Resolution::Zero => 0,
            Resolution::One => 1,
            Resolution::Two => 2,
            Resolution::Three => 3,
            Resolution::Four => 4,
            Resolution::Five => 5,
            Resolution::Six => 6,
            Resolution::Seven => 7,
            Resolution::Eight => 8,
            Resolution::Nine => 9,
            Resolution::Ten => 10,
            Resolution::Eleven => 11,
            Resolution::Twelve => 12,
            Resolution::Thirteen => 13,
            Resolution::Fourteen => 14,
            Resolution::Fifteen => 15,
        }
    }

    /// The resolution as a number.
    pub fn value(self) -> (r: u8)
        ensures
            r as int == self.level(),
            r <= MAX_RESOLUTION,
    {
        match self {
            Resolution::Zero => 0,
            Resolution::One => 1,
            Resolution::Two => 2,
            Resolution::Three => 3,
            Resolution::Four => 4,
            Resolution::Five => 5,
            Resolution::Six => 6,
            Resolution::Seven => 7,
            Resolution::Eight => 8,
            Resolution::Nine => 9,
            Resolution::Ten => 10,
            Resolution::Eleven => 11,
            Resolution::Twelve => 12,
            Resolution::Thirteen => 13,
            Resolution::Fourteen => 14,
            Resolution::Fifteen => 15,
        }
    }

    /// The resolution with the given number, if it is at most 15.
    pub fn from_value(value: u8) -> (r: Option<Resolution>)
        ensures
            value <= MAX_RESOLUTION <==> r.is_some(),
            r.is_some() ==> r.unwrap().level() == value as int,
    {
        match value {
            0 => Some(Resolution::Zero),
            1 => Some(Resolution::One),
            2 => Some(Resolution::Two),
            3 => Some(Resolution::Three),
            4 => Some(Resolution::Four),
            5 => Some(Resolution::Five),
            6 => Some(Resolution::Six),
            7 => Some(Resolution::Seven),
            8 => Some(Resolution::Eight),
            9 => Some(Resolution::Nine),
            10 => Some(Resolution::Ten),
            11 => Some(Resolution::Eleven),
            12 => Some(Resolution::Twelve),
            13 => Some(Resolution::Thirteen),
            14 => Some(Resolution::Fourteen),
            15 => Some(Resolution::Fifteen),
            _ => None,
        }
    }

    /// The next finer resolution; none beyond the finest, since a resolution
    /// never wraps.
    pub fn succ(self) -> (r: Option<Resolution>)
        ensures
            self.level() < 15 <==> r.is_some(),
            r.is_some() ==> r.unwrap().level() == self.level() + 1,
    {
        let v: u8 = self.value();
        if v < 15 {
            Resolution::from_value(v + 1)
        } else {
            None
        }
    }

    /// The next coarser resolution; none below the coarsest.
    pub fn pred(self) -> (r: Option<Resolution>)
        ensures
            self.level() > 0 <==> r.is_some(),
            r.is_some() ==> r.unwrap().level() == self.level() - 1,
    {
        let v: u8 = self.value();
        if v > 0 {
            Resolution::from_value(v - 1)
        } else {
            None
        }
    }

    /// Every resolution from `start` to `end`, both included, in increasing
    /// order; empty where `start` is finer than `end`.
    pub fn range(start: Resolution, end: Resolution) -> (out: Vec<Resolution>)
        ensures
            out@.len() == if start.level() <= end.level() {
                end.level() - start.level() + 1
            } else {
                0
            },
            forall|i: int| 0 <= i < out@.len() ==> (#[trigger] out@[i]).level() == start.level() + i,
    {
        let lo: u8 = start.value();
        let hi: u8 = end.value();
        let mut out: Vec<Resolution> = Vec::new();
        let mut v: u8 = lo;
        while v <= hi
            invariant
                lo <= v <= hi + 1 || (lo > hi && v == lo),
                hi <= 15,
                lo as int == start.level(),
                out@.len() == if lo <= hi { v - lo } else { 0 },
                forall|i: int| 0 <= i < out@.len() ==> (#[trigger] out@[i]).level() == lo + i,
            decreases hi + 1 - v,
        {
            let r = Resolution::from_value(v);
            out.push(r.unwrap());
            v = v + 1;
        }
        out
    }
}

} // verus!
