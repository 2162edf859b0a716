//! The content of a single cell.

use std::convert::TryFrom;
use vstd::prelude::*;
use vstd::std_specs::convert::{FromSpecImpl, TryFromSpecImpl};

verus! {

/// What a cell holds: nothing yet, or one of the digits one to nine.
///
/// `Empty` is a value of its own and not the digit zero, so whether a cell is
/// still open is asked of the variant and never of a number.
#[derive(Copy, Clone, Debug, PartialEq, Eq, Structural)]
pub enum Number {
    Empty,
    One,
    Two,
    Three,
    Four,
    Five,
    Six,
    Seven,
    Eight,
    Nine,
}

/// The cell content that the number `n` stands for: `Empty` for zero, the
/// digit itself for one to nine. Numbers above nine stand for nothing and are
/// mapped to `Empty`.
pub open spec fn number_of(n: int) -> Number {
    if n == 1 {
        Number::One
    } else if n == 2 {
        Number::Two
    } else if n == 3 {
        Number::Three
    } else if n == 4 {
        Number::Four
    } else if n == 5 {
        Number::Five
    } else if n == 6 {
        Number::Six
    } else if n == 7 {
        Number::Seven
    } else if n == 8 {
        Number::Eight
    } else if n == 9 {
        Number::Nine
    } else {
        Number::Empty
    }
}

impl Number {
    /// The digit as a natural number; zero for `Empty`.
    pub open spec fn digit(self) -> nat {
        match self {
            Number::Empty => 0,
            Number::One => 1,
            Number::Two => 2,
            Number::Three => 3,
            Number::Four => 4,
            Number::Five => 5,
            Number::Six => 6,
            Number::Seven => 7,
            Number::Eight => 8,
            Number::Nine => 9,
        }
    }

    /// The next candidate after this one: `Empty` gives `One`, `One` gives
    /// `Two`, and so on up to `Eight`, which gives `Nine`.
    ///
    /// `Nine` has no successor. A caller that has reached it puts the cell
    /// back to `Empty` instead of asking for more.
    pub fn inc(self) -> (next: Number)
        requires
            self != Number::Nine,
        ensures
            next.digit() == self.digit() + 1,
    {
        match self {
            Number::Empty => Number::One,
            Number::One => Number::Two,
            Number::Two => Number::Three,
            Number::Three => Number::Four,
            Number::Four => Number::Five,
            Number::Five => Number::Six,
            Number::Six => Number::Seven,
            Number::Seven => Number::Eight,
            Number::Eight => Number::Nine,
            Number::Nine => vstd::pervasive::unreached(),
        }
    }
}

/// `digit` and `number_of` undo each other on the ten cell contents, and
/// `digit` never exceeds nine.
pub proof fn lemma_digit_number_of(x: Number)
    ensures
        x.digit() <= 9,
        number_of(x.digit() as int) == x,
        x == Number::Empty <==> x.digit() == 0,
{
}

impl From<Number> for u8 {
    /// The digit of a cell as a byte, zero for `Empty`.
    fn from(x: Number) -> (n: u8) {
        match x {
            Number::Empty => 0,
            Number::One => 1,
            Number::Two => 2,
            Number::Three => 3,
            Number::Four => 4,
            Number::Five => 5,
            Number::Six => 6,
            Number::Seven => 7,
            Number::Eight => 8,
            Number::Nine => 9,
        }
    }
}

impl FromSpecImpl<Number> for u8 {
    open spec fn obeys_from_spec() -> bool {
        true
    }

    open spec fn from_spec(x: Number) -> u8 {
        x.digit() as u8
    }
}

/// The error of a conversion from a number above nine.
#[derive(Copy, Clone, Debug, PartialEq, Eq, Structural)]
pub struct TooLarge;

impl TryFrom<u8> for Number {
    type Error = TooLarge;

    /// Zero gives `Empty`, one to nine give the digit, anything larger is
    /// refused.
    fn try_from(x: u8) -> (r: Result<Number, TooLarge>) {
        match x {
            0 => Ok(Number::Empty),
            1 => Ok(Number::One),
            2 => Ok(Number::Two),
            3 => Ok(Number::Three),
            4 => Ok(Number::Four),
            5 => Ok(Number::Five),
            6 => Ok(Number::Six),
            7 => Ok(Number::Seven),
            8 => Ok(Number::Eight),
            9 => Ok(Number::Nine),
            _ => Err(TooLarge),
        }
    }
}

impl TryFromSpecImpl<u8> for Number {
    open spec fn obeys_try_from_spec() -> bool {
        true
    }

    open spec fn try_from_spec(x: u8) -> Result<Number, TooLarge> {
        if x <= 9 {
            Ok(number_of(x as int))
        } else {
            Err(TooLarge)
        }
    }
}

} // verus!
