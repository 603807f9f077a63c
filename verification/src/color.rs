//! Color values.
//!
//! A color is held as its red/green/blue components.  Parsing a color token
//! is delegated to the svgdom crate; what a given token denotes is named by
//! `parsed_rgb` and never restated here.

use vstd::prelude::*;

verus! {

/// An opaque validated color value.
#[derive(Clone, Copy, PartialEq, Eq, Structural, Debug)]
pub struct Color {
    pub red: u8,
    pub green: u8,
    pub blue: u8,
}

pub open spec fn rgb_of(c: Color) -> (u8, u8, u8) {
    (c.red, c.green, c.blue)
}

/// The components a standard color token denotes, or `None` when the token
/// is not a valid color.
pub uninterp spec fn parsed_rgb(s: Seq<char>) -> Option<(u8, u8, u8)>;

/// Relies on svgdom's `Color::from_str` (re-exported from svgtypes): the
/// result is a function of the token text alone.
#[verifier::external_body]
pub(crate) fn parse_color_token(s: &str) -> (r: Option<Color>)
    ensures
        match r {
            Some(c) => parsed_rgb(s@) == Some(rgb_of(c)),
            None => parsed_rgb(s@) is None,
        },
{
    match <svgdom::Color as core::str::FromStr>::from_str(s) {
        Ok(c) => Some(Color { red: c.red, green: c.green, blue: c.blue }),
        Err(_) => None,
    }
}

/// Relies on svgdom's `Color::from_str`, applied to the token with a
/// leading `'#'` prepended.
#[verifier::external_body]
pub(crate) fn parse_color_hash_token(s: &str) -> (r: Option<Color>)
    ensures
        match r {
            Some(c) => parsed_rgb(seq!['#'].add(s@)) == Some(rgb_of(c)),
            None => parsed_rgb(seq!['#'].add(s@)) is None,
        },
{
    match <svgdom::Color as core::str::FromStr>::from_str(&format!("#{}", s)) {
        Ok(c) => Some(Color { red: c.red, green: c.green, blue: c.blue }),
        Err(_) => None,
    }
}

} // verus!
