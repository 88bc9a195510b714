//! String art: approximate a grayscale image by straight chords strung
//! between pegs on the image's border.

pub mod grid;
pub mod peg;
pub mod raster;
pub mod score;
pub mod search;
pub mod driver;
