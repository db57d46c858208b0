//! Character-art rendering of grayscale images, with machine-checked
//! contracts.
//!
//! An image is a grid of 8-bit intensity levels ([`bitmap`]). It is rendered
//! as text in one of two ways.
//!
//! * By luminance ([`luminance`]): the image is scaled to one pixel for each
//!   output character ([`scale`]), and every pixel becomes the character of
//!   a palette that stands for its intensity.
//! * By similarity ([`similarity`]): the image is scaled to a whole number of
//!   cells to the line and cut into cells ([`tiling`]). Every cell becomes
//!   the candidate character whose glyph is closest to it, with a bias toward
//!   the blank ([`matcher`]). The candidates and their fingerprints are kept
//!   in a charset ([`charset`]); the font face that renders a character is
//!   chosen in [`glyph`].
//!
//! Either way the characters are assembled row by row into text ([`text`]).
//!
//! Three things are left to the caller, because they are measured in
//! floating point or read from the system: decoding an image into intensity
//! levels, rasterizing a glyph, and measuring how far a cell is from a
//! glyph. The library hands out the bitmaps to measure and takes the
//! measures back as whole numbers.

pub mod bitmap;
pub mod charset;
pub mod glyph;
pub mod luminance;
pub mod matcher;
pub mod scale;
pub mod similarity;
pub mod text;
pub mod tiling;
