//! Braille art: a lightness map becomes a grid of Unicode braille glyphs,
//! each standing for a block of dots two wide and four tall.
//!
//! [`commons`] holds the images and what is done to them: dithering a
//! lightness map to black and white, packing it into glyphs, rendering the
//! glyphs as text. [`braille`] answers a request for such a rendering, and
//! [`zoazo`] makes emote names. Every function carries a contract that Verus
//! proves.

pub mod braille;
pub mod commons;
pub mod zoazo;
