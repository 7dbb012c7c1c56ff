//! What a score is called, and how it is coloured.

use vstd::prelude::*;
use crate::binary64::Binary64;

verus! {

/// The encoding of the binary64 nearest to 0.94: from here on a score is
/// excellent.
pub const EXCELLENT_BITS: u64 = 0x3fee_147a_e147_ae14;

/// The encoding of the binary64 nearest to 0.85: from here on a score is good.
pub const GOOD_BITS: u64 = 0x3feb_3333_3333_3333;

/// The encoding of the binary64 nearest to 0.70: from here on a score is fair.
pub const FAIR_BITS: u64 = 0x3fe6_6666_6666_6666;

/// The encoding of 0.50: from here on a score is poor, below it unacceptable.
pub const POOR_BITS: u64 = 0x3fe0_0000_0000_0000;

/// The rating of a score.
#[derive(Clone, Copy, Debug, PartialEq, Eq, Structural)]
pub enum Rating {
    Excellent,
    Good,
    Fair,
    Poor,
    Unacceptable,
    NoSample,
}

/// A colour category for a score. It says how alarming the score is, not
/// which colour a terminal shows.
#[derive(Clone, Copy, Debug, PartialEq, Eq, Structural)]
pub enum DisplayColor {
    Unset,
    Cyan,
    Green,
    Purple,
    Red,
}

/// Makes the colour type of the `yansi` crate, `yansi::Color`, known to the
/// verifier. The enum is read as the crate defines it, with all its variants,
/// so nothing is assumed about it: `terminal_color` below builds its values
/// in verified code, and its contract names the variant that comes out.
#[verifier::external_type_specification]
pub struct ExColor(yansi::Color);

impl Rating {
    /// The rating of a score: the first band, from the top, that the score
    /// reaches; `NoSample` where there is no score.
    pub open spec fn spec_of(score: Option<Binary64>) -> Rating {
        match score {
            None => Rating::NoSample,
            Some(x) => {
                if x.spec_ge(Binary64 { bits: EXCELLENT_BITS }) {
                    Rating::Excellent
                } else if x.spec_ge(Binary64 { bits: GOOD_BITS }) {
                    Rating::Good
                } else if x.spec_ge(Binary64 { bits: FAIR_BITS }) {
                    Rating::Fair
                } else if x.spec_ge(Binary64 { bits: POOR_BITS }) {
                    Rating::Poor
                } else {
                    Rating::Unacceptable
                }
            },
        }
    }

    /// The rating as a word.
    pub open spec fn spec_word(self) -> Seq<char> {
        match self {
            Rating::Excellent => "Excellent"@,
            Rating::Good => "Good"@,
            Rating::Fair => "Fair"@,
            Rating::Poor => "Poor"@,
            Rating::Unacceptable => "Unacceptable"@,
            Rating::NoSample => "NoSample"@,
        }
    }

    /// The rating of a score.
    #[verifier::when_used_as_spec(spec_of)]
    pub fn of(score: Option<Binary64>) -> (r: Rating)
        ensures
            r == Rating::spec_of(score),
    {
        match score {
            None => Rating::NoSample,
            Some(x) => {
                if x.ge(Binary64::from_bits(EXCELLENT_BITS)) {
                    Rating::Excellent
                } else if x.ge(Binary64::from_bits(GOOD_BITS)) {
                    Rating::Good
                } else if x.ge(Binary64::from_bits(FAIR_BITS)) {
                    Rating::Fair
                } else if x.ge(Binary64::from_bits(POOR_BITS)) {
                    Rating::Poor
                } else {
                    Rating::Unacceptable
                }
            },
        }
    }

    /// The rating as a word.
    pub fn word(self) -> (r: &'static str)
        ensures
            r@ == self.spec_word(),
    {
        match self {
            Rating::Excellent => "Excellent",
            Rating::Good => "Good",
            Rating::Fair => "Fair",
            Rating::Poor => "Poor",
            Rating::Unacceptable => "Unacceptable",
            Rating::NoSample => "NoSample",
        }
    }
}

impl DisplayColor {
    /// The colour category of a score. A small group gets none, whatever its
    /// score; poor and unacceptable scores share red.
    pub open spec fn spec_of(score: Option<Binary64>, small_group: bool) -> DisplayColor {
        if small_group {
            DisplayColor::Unset
        } else {
            match Rating::spec_of(score) {
                Rating::NoSample => DisplayColor::Unset,
                Rating::Excellent => DisplayColor::Cyan,
                Rating::Good => DisplayColor::Green,
                Rating::Fair => DisplayColor::Purple,
                Rating::Poor => DisplayColor::Red,
                Rating::Unacceptable => DisplayColor::Red,
            }
        }
    }

    /// The colour of the `yansi` crate for this category.
    pub open spec fn spec_terminal_color(self) -> yansi::Color {
        match self {
            DisplayColor::Unset => yansi::Color::Unset,
            DisplayColor::Cyan => yansi::Color::Cyan,
            DisplayColor::Green => yansi::Color::Green,
            DisplayColor::Purple => yansi::Color::Purple,
            DisplayColor::Red => yansi::Color::Red,
        }
    }

    /// The colour category of a score.
    #[verifier::when_used_as_spec(spec_of)]
    pub fn of(score: Option<Binary64>, small_group: bool) -> (r: DisplayColor)
        ensures
            r == DisplayColor::spec_of(score, small_group),
    {
        if small_group {
            DisplayColor::Unset
        } else {
            match Rating::of(score) {
                Rating::NoSample => DisplayColor::Unset,
                Rating::Excellent => DisplayColor::Cyan,
                Rating::Good => DisplayColor::Green,
                Rating::Fair => DisplayColor::Purple,
                Rating::Poor => DisplayColor::Red,
                Rating::Unacceptable => DisplayColor::Red,
            }
        }
    }

    /// The colour of the `yansi` crate for this category.
    #[verifier::when_used_as_spec(spec_terminal_color)]
    pub fn terminal_color(self) -> (r: yansi::Color)
        ensures
            r == self.spec_terminal_color(),
    {
        match self {
            DisplayColor::Unset => yansi::Color::Unset,
            DisplayColor::Cyan => yansi::Color::Cyan,
            DisplayColor::Green => yansi::Color::Green,
            DisplayColor::Purple => yansi::Color::Purple,
            DisplayColor::Red => yansi::Color::Red,
        }
    }
}

} // verus!
