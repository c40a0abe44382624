//! The image types and the algorithms that work on them.

pub mod braille_img;
pub mod dithering;
pub mod gray_img;
pub mod sierra;
pub mod text;
