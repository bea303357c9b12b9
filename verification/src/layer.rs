//! The depth of a branch in the trie.

use vstd::prelude::*;
use vstd::std_specs::convert::FromSpecImpl;

verus! {

/// The depth of a branch: one of the 32 layers, one for each byte of an
/// address, or `OutOfRange` for any depth below them.
#[derive(Clone, Copy, Debug, PartialEq, Eq, Structural)]
pub enum Layer {
    Zero,
    One,
    Two,
    Three,
    Four,
    Five,
    Six,
    Seven,
    Eight,
    Nine,
    Ten,
    Eleven,
    Twelve,
    Thirteen,
    Fourteen,
    Fifteen,
    Sixteen,
    Seventeen,
    Eighteen,
    Nineteen,
    Twenty,
    TwentyOne,
    TwentyTwo,
    TwentyThree,
    TwentyFour,
    TwentyFive,
    TwentySix,
    TwentySeven,
    TwentyEight,
    TwentyNine,
    Thirty,
    ThirtyOne,
    OutOfRange,
}

impl Layer {
    /// The depth as a number: 0 to 31 for the layers, 32 for `OutOfRange`.
    pub open spec fn index(self) -> nat {
        match self {
            Layer::Zero => 0,
            Layer::One => 1,
            Layer::Two => 2,
            Layer::Three => 3,
            Layer::Four => 4,
            Layer::Five => 5,
            Layer::Six => 6,
            Layer::Seven => 7,
            Layer::Eight => 8,
            Layer::Nine => 9,
            Layer::Ten => 10,
            Layer::Eleven => 11,
            Layer::Twelve => 12,
            Layer::Thirteen => 13,
            Layer::Fourteen => 14,
            Layer::Fifteen => 15,
            Layer::Sixteen => 16,
            Layer::Seventeen => 17,
            Layer::Eighteen => 18,
            Layer::Nineteen => 19,
            Layer::Twenty => 20,
            Layer::TwentyOne => 21,
            Layer::TwentyTwo => 22,
            Layer::TwentyThree => 23,
            Layer::TwentyFour => 24,
            Layer::TwentyFive => 25,
            Layer::TwentySix => 26,
            Layer::TwentySeven => 27,
            Layer::TwentyEight => 28,
            Layer::TwentyNine => 29,
            Layer::Thirty => 30,
            Layer::ThirtyOne => 31,
            Layer::OutOfRange => 32,
        }
    }

    /// The layer at depth `depth`; `OutOfRange` from 32 on.
    pub open spec fn at(depth: nat) -> Layer {
        if depth == 0 {
            Layer::Zero
        } else if depth == 1 {
            Layer::One
        } else if depth == 2 {
            Layer::Two
        } else if depth == 3 {
            Layer::Three
        } else if depth == 4 {
            Layer::Four
        } else if depth == 5 {
            Layer::Five
        } else if depth == 6 {
            Layer::Six
        } else if depth == 7 {
            Layer::Seven
        } else if depth == 8 {
            Layer::Eight
        } else if depth == 9 {
            Layer::Nine
        } else if depth == 10 {
            Layer::Ten
        } else if depth == 11 {
            Layer::Eleven
        } else if depth == 12 {
            Layer::Twelve
        } else if depth == 13 {
            Layer::Thirteen
        } else if depth == 14 {
            Layer::Fourteen
        } else if depth == 15 {
            Layer::Fifteen
        } else if depth == 16 {
            Layer::Sixteen
        } else if depth == 17 {
            Layer::Seventeen
        } else if depth == 18 {
            Layer::Eighteen
        } else if depth == 19 {
            Layer::Nineteen
        } else if depth == 20 {
            Layer::Twenty
        } else if depth == 21 {
            Layer::TwentyOne
        } else if depth == 22 {
            Layer::TwentyTwo
        } else if depth == 23 {
            Layer::TwentyThree
        } else if depth == 24 {
            Layer::TwentyFour
        } else if depth == 25 {
            Layer::TwentyFive
        } else if depth == 26 {
            Layer::TwentySix
        } else if depth == 27 {
            Layer::TwentySeven
        } else if depth == 28 {
            Layer::TwentyEight
        } else if depth == 29 {
            Layer::TwentyNine
        } else if depth == 30 {
            Layer::Thirty
        } else if depth == 31 {
            Layer::ThirtyOne
        } else {
            Layer::OutOfRange
        }
    }

    /// The depth one below `depth`, which stays at 32 once it is out of range.
    pub open spec fn below(depth: nat) -> nat {
        if depth < 32 {
            depth + 1
        } else {
            32
        }
    }

    /// The depth as a byte.
    pub fn to_u8(&self) -> (depth: u8)
        ensures
            depth == self.index(),
    {
        match self {
            Layer::Zero => 0,
            Layer::One => 1,
            Layer::Two => 2,
            Layer::Three => 3,
            Layer::Four => 4,
            Layer::Five => 5,
            Layer::Six => 6,
            Layer::Seven => 7,
            Layer::Eight => 8,
            Layer::Nine => 9,
            Layer::Ten => 10,
            Layer::Eleven => 11,
            Layer::Twelve => 12,
            Layer::Thirteen => 13,
            Layer::Fourteen => 14,
            Layer::Fifteen => 15,
            Layer::Sixteen => 16,
            Layer::Seventeen => 17,
            Layer::Eighteen => 18,
            Layer::Nineteen => 19,
            Layer::Twenty => 20,
            Layer::TwentyOne => 21,
            Layer::TwentyTwo => 22,
            Layer::TwentyThree => 23,
            Layer::TwentyFour => 24,
            Layer::TwentyFive => 25,
            Layer::TwentySix => 26,
            Layer::TwentySeven => 27,
            Layer::TwentyEight => 28,
            Layer::TwentyNine => 29,
            Layer::Thirty => 30,
            Layer::ThirtyOne => 31,
            Layer::OutOfRange => 32,
        }
    }

    /// The layer at depth `depth`.
    pub fn from_u8(depth: u8) -> (layer: Layer)
        ensures
            layer == Layer::at(depth as nat),
            depth < 32 ==> layer.index() == depth,
            depth >= 32 ==> layer.index() == 32,
    {
        match depth {
            0 => Layer::Zero,
            1 => Layer::One,
            2 => Layer::Two,
            3 => Layer::Three,
            4 => Layer::Four,
            5 => Layer::Five,
            6 => Layer::Six,
            7 => Layer::Seven,
            8 => Layer::Eight,
            9 => Layer::Nine,
            10 => Layer::Ten,
            11 => Layer::Eleven,
            12 => Layer::Twelve,
            13 => Layer::Thirteen,
            14 => Layer::Fourteen,
            15 => Layer::Fifteen,
            16 => Layer::Sixteen,
            17 => Layer::Seventeen,
            18 => Layer::Eighteen,
            19 => Layer::Nineteen,
            20 => Layer::Twenty,
            21 => Layer::TwentyOne,
            22 => Layer::TwentyTwo,
            23 => Layer::TwentyThree,
            24 => Layer::TwentyFour,
            25 => Layer::TwentyFive,
            26 => Layer::TwentySix,
            27 => Layer::TwentySeven,
            28 => Layer::TwentyEight,
            29 => Layer::TwentyNine,
            30 => Layer::Thirty,
            31 => Layer::ThirtyOne,
            _ => Layer::OutOfRange,
        }
    }
}

impl From<u8> for Layer {
    fn from(depth: u8) -> (layer: Layer) {
        Layer::from_u8(depth)
    }
}

impl FromSpecImpl<u8> for Layer {
    open spec fn obeys_from_spec() -> bool {
        true
    }

    open spec fn from_spec(depth: u8) -> Layer {
        Layer::at(depth as nat)
    }
}

impl From<usize> for Layer {
    fn from(depth: usize) -> (layer: Layer) {
        if depth < 32 {
            Layer::from_u8(depth as u8)
        } else {
            Layer::OutOfRange
        }
    }
}

impl FromSpecImpl<usize> for Layer {
    open spec fn obeys_from_spec() -> bool {
        true
    }

    open spec fn from_spec(depth: usize) -> Layer {
        Layer::at(depth as nat)
    }
}

impl From<Layer> for u8 {
    fn from(layer: Layer) -> (depth: u8) {
        layer.to_u8()
    }
}

impl FromSpecImpl<Layer> for u8 {
    open spec fn obeys_from_spec() -> bool {
        true
    }

    open spec fn from_spec(layer: Layer) -> u8 {
        layer.index() as u8
    }
}

} // verus!
